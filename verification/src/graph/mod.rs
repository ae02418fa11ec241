use vstd::prelude::*;
use crate::edge::{Edge, EdgeV};
use crate::node::{Node, NodeV};
use crate::property::{PropV, PropertyMap, PropertyValue};
use crate::string_pool::{intern, interned_at, StringPool};
use crate::graph::model::{
    gv_wf, index_ok, node_indexed, GraphV, IndexV, wal_apply, wal_replay, wal_applicable, g_add_label, g_add_node,
    g_add_edge, g_create_index, stamp, deleted_stamp, g_drop_index, g_set_node_property, g_delete_node, g_delete_edge,
    g_remove_node_property, g_remove_node_label, index_new_node, index_set, index_delete, index_unset,
    index_unlabel, with_edge, populate, has_index, index_pos, index_at, without_first, lemma_replay_push,
    lemma_wf_add_label, lemma_wf_add_node, lemma_wf_add_edge, lemma_wf_create_index, lemma_wf_drop_index,
    lemma_wf_set_node_property, lemma_wf_delete_node, lemma_wf_delete_edge, lemma_wf_remove_node_property,
    lemma_wf_remove_node_label, lemma_wf_apply,
};
use crate::graph::types::{entries_unique, IndexMap, IndexType, WalEntry, WalEntryV, wal_view, index_add};

pub mod types;
pub mod model;
pub mod element;
pub mod result_set;
pub mod matching;
pub mod plan_exec;
pub mod display;
pub mod eval;
pub mod functions;
pub mod json;
pub mod execute;
pub mod project;
pub mod query;
pub mod import;

verus! {

/// A copy of a list of ids.
pub fn copy_ids(ids: &Vec<usize>) -> (r: Vec<usize>)
    ensures
        r@ == ids@,
{
    let r = ids.clone();
    assert(r@ =~= ids@);
    r
}

/// A lower-case hexadecimal digit.
pub open spec fn is_lower_hex(c: char) -> bool {
    ('0' <= c && c <= '9') || ('a' <= c && c <= 'f')
}

/// `s` is the hyphenated lower-case text of a version-4 UUID: 36 characters, hyphens at
/// positions 8, 13, 18 and 23 and lower-case hexadecimal digits elsewhere, the version digit `4`
/// at position 14 and one of `8`, `9`, `a`, `b` (the variant) at position 19.
pub open spec fn uuid_v4_text(s: Seq<char>) -> bool {
    &&& s.len() == 36
    &&& forall|i: int| 0 <= i < 36 ==>
        if i == 8 || i == 13 || i == 18 || i == 23 { #[trigger] s[i] == '-' } else { is_lower_hex(s[i]) }
    &&& s[14] == '4'
    &&& (s[19] == '8' || s[19] == '9' || s[19] == 'a' || s[19] == 'b')
}

/// A fresh random id for a node or an edge, in the hyphenated form of a version-4 UUID.
///
/// Calls `uuid::Uuid::new_v4` and formats the result with `to_string` (lower-case hyphenated
/// text). The contract claims what holds of every outcome: the form (`uuid_v4_text`), with the
/// version and variant digits that `new_v4` sets. The other digits are random and nothing else
/// is said of them.
#[verifier::external_body]
fn new_element_id() -> (r: String)
    ensures
        uuid_v4_text(r@),
{
    uuid::Uuid::new_v4().to_string()
}

/// A property index: for one label and one property, the nodes by value.
#[derive(Debug)]
pub struct PropertyIndex {
    pub label: usize,
    pub property: String,
    pub map: IndexMap,
}

impl View for PropertyIndex {
    type V = IndexV;

    open spec fn view(&self) -> IndexV {
        IndexV { label: self.label, property: self.property@, kind: self.map.kind(), entries: self.map.entries() }
    }
}

pub open spec fn nodes_view(ns: Seq<Node>) -> Seq<NodeV> {
    ns.map_values(|n: Node| n@)
}

pub open spec fn edges_view(es: Seq<Edge>) -> Seq<EdgeV> {
    es.map_values(|e: Edge| e@)
}

pub open spec fn indices_view(ixs: Seq<PropertyIndex>) -> Seq<IndexV> {
    ixs.map_values(|ix: PropertyIndex| ix@)
}

/// The graph: nodes and edges by id, label names by id, property indices, the log of the
/// changes made since the log was last taken, the transaction running on it (if any) and the id
/// the next query's transaction gets.
pub struct Graph {
    pub nodes: Vec<Node>,
    pub edges: Vec<Edge>,
    pub labels: StringPool,
    pub indices: Vec<PropertyIndex>,
    pub wal: Vec<WalEntry>,
    pub tx: Option<u64>,
    pub next_txid: u64,
}

impl View for Graph {
    type V = GraphV;

    open spec fn view(&self) -> GraphV {
        GraphV {
            nodes: nodes_view(self.nodes@),
            edges: edges_view(self.edges@),
            labels: self.labels@,
            indices: indices_view(self.indices@),
            tx: self.tx,
            next_txid: self.next_txid,
        }
    }
}

/// An entry, as read back from storage, can be redone on `g`: what it names exists and the values
/// it holds are well formed (see `Graph::replay_entry`).
pub open spec fn entry_ok(g: GraphV, e: WalEntry) -> bool {
    &&& wal_applicable(g, e@)
    &&& match e {
        WalEntry::AddNode { properties, .. } => properties.wf(),
        WalEntry::AddEdge { properties, .. } => properties.wf(),
        WalEntry::SetNodeProperty { value, .. } => value.wf(),
        _ => true,
    }
}

/// Each entry can be redone on `g` after the ones before it.
pub open spec fn replayable(g: GraphV, es: Seq<WalEntry>) -> bool
    decreases es.len(),
{
    es.len() == 0 || (replayable(g, es.drop_last()) && entry_ok(wal_replay(g, wal_view(es.drop_last())), es.last()))
}

/// `new` has `old`'s log as a prefix, and redoing the entries added after it on `old`, each of
/// which can be redone in turn, gives `new`.
pub open spec fn redoes(old: Graph, new: Graph) -> bool {
    &&& old.wal@.len() <= new.wal@.len()
    &&& new.wal@.subrange(0, old.wal@.len() as int) == old.wal@
    &&& new@ == wal_replay(old@, wal_view(new.wal@.subrange(old.wal@.len() as int, new.wal@.len() as int)))
    &&& replayable(old@, new.wal@.subrange(old.wal@.len() as int, new.wal@.len() as int))
}

/// The log of `new` is that of `old` with `e` added, which can be redone on `old`, and `new` is
/// `old` with `e` redone.
pub open spec fn logged_one(old: Graph, new: Graph, e: WalEntryV) -> bool {
    &&& new.wal@.len() == old.wal@.len() + 1
    &&& new.wal@.subrange(0, old.wal@.len() as int) == old.wal@
    &&& wal_view(new.wal@) == wal_view(old.wal@).push(e)
    &&& entry_ok(old@, new.wal@.last())
    &&& new@ == wal_apply(old@, e)
}

/// A log that can be redone can be redone up to any point.
pub proof fn lemma_replayable_prefix(g: GraphV, es: Seq<WalEntry>, k: int)
    requires
        0 <= k <= es.len(),
        replayable(g, es),
    ensures
        replayable(g, es.take(k)),
    decreases es.len(),
{
    if k < es.len() {
        assert(es.drop_last().take(k) =~= es.take(k));
        lemma_replayable_prefix(g, es.drop_last(), k);
    } else {
        assert(es.take(k) =~= es);
    }
}

/// Logs that can be redone in two pieces can be redone whole.
pub proof fn lemma_replayable_concat(g: GraphV, a: Seq<WalEntry>, b: Seq<WalEntry>)
    requires
        replayable(g, a),
        replayable(wal_replay(g, wal_view(a)), b),
    ensures
        replayable(g, a + b),
    decreases b.len(),
{
    if b.len() == 0 {
        assert(a + b =~= a);
    } else {
        lemma_replayable_concat(g, a, b.drop_last());
        assert((a + b).drop_last() =~= a + b.drop_last());
        assert((a + b).last() == b.last());
        assert(wal_view(a + b.drop_last()) =~= wal_view(a) + wal_view(b.drop_last()));
        crate::graph::model::law_replay_concat(g, wal_view(a), wal_view(b.drop_last()));
    }
}

/// The entries that `new` logged after those of `old`.
pub open spec fn logged_since(old: Graph, new: Graph) -> Seq<WalEntryV> {
    wal_view(new.wal@.subrange(old.wal@.len() as int, new.wal@.len() as int))
}

/// A graph has logged nothing since itself.
pub proof fn lemma_logged_since_refl(g: Graph)
    ensures
        logged_since(g, g) == Seq::<WalEntryV>::empty(),
{
    let n = g.wal@.len() as int;
    assert(wal_view(g.wal@.subrange(n, n)) =~= Seq::<WalEntryV>::empty());
}

/// One more logged change adds its entry to what was logged since `a`.
pub proof fn lemma_logged_since_push(a: Graph, b: Graph, c: Graph, e: WalEntryV)
    requires
        redoes(a, b),
        logged_one(b, c, e),
    ensures
        logged_since(a, c) == logged_since(a, b).push(e),
{
    let la = a.wal@.len() as int;
    let lb = b.wal@.len() as int;
    assert(wal_view(c.wal@)[lb] == e);
    assert(c.wal@.subrange(la, lb + 1) =~= b.wal@.subrange(la, lb).push(c.wal@[lb]));
    assert(wal_view(c.wal@.subrange(la, lb + 1)) =~= logged_since(a, b).push(e));
}

/// What was logged since `a` is what was logged until `b` and then until `c`.
pub proof fn lemma_logged_since_concat(a: Graph, b: Graph, c: Graph)
    requires
        redoes(a, b),
        redoes(b, c),
    ensures
        logged_since(a, c) == logged_since(a, b) + logged_since(b, c),
{
    let la = a.wal@.len() as int;
    let lb = b.wal@.len() as int;
    let lc = c.wal@.len() as int;
    assert(c.wal@.subrange(0, la) =~= c.wal@.subrange(0, lb).subrange(0, la));
    assert(b.wal@.subrange(la, lb) =~= c.wal@.subrange(la, lb));
    assert(c.wal@.subrange(la, lc) =~= c.wal@.subrange(la, lb) + c.wal@.subrange(lb, lc));
    assert(wal_view(c.wal@.subrange(la, lc)) =~= wal_view(b.wal@.subrange(la, lb)) + wal_view(c.wal@.subrange(lb, lc)));
}

/// Nothing logged redoes nothing.
pub proof fn lemma_redoes_refl(g: Graph)
    ensures
        redoes(g, g),
{
    let n = g.wal@.len() as int;
    assert(g.wal@.subrange(0, n) =~= g.wal@);
    assert(wal_view(g.wal@.subrange(n, n)) =~= Seq::<WalEntryV>::empty());
}

/// One logged change is redone by its entry.
pub proof fn lemma_logged_redoes(a: Graph, b: Graph, e: WalEntryV)
    requires
        logged_one(a, b, e),
    ensures
        redoes(a, b),
{
    let n = a.wal@.len() as int;
    assert(wal_view(b.wal@)[n] == e);
    assert(wal_view(b.wal@.subrange(n, n + 1)) =~= Seq::<WalEntryV>::empty().push(e));
    lemma_replay_push(a@, Seq::empty(), e);
    let one = b.wal@.subrange(n, n + 1);
    assert(one.drop_last() =~= Seq::<WalEntry>::empty());
    assert(wal_view(one.drop_last()) =~= Seq::<WalEntryV>::empty());
    assert(one.last() == b.wal@.last());
    assert(replayable(a@, one.drop_last()));
    assert(wal_replay(a@, wal_view(one.drop_last())) == a@);
    assert(replayable(a@, one));
}

/// Redoing twice is redoing the entries of both.
pub proof fn lemma_redoes_trans(a: Graph, b: Graph, c: Graph)
    requires
        redoes(a, b),
        redoes(b, c),
    ensures
        redoes(a, c),
{
    let la = a.wal@.len() as int;
    let lb = b.wal@.len() as int;
    let lc = c.wal@.len() as int;
    assert(c.wal@.subrange(0, la) =~= c.wal@.subrange(0, lb).subrange(0, la));
    assert(b.wal@.subrange(la, lb) =~= c.wal@.subrange(la, lb));
    assert(c.wal@.subrange(la, lc) =~= c.wal@.subrange(la, lb) + c.wal@.subrange(lb, lc));
    assert(wal_view(c.wal@.subrange(la, lc)) =~= wal_view(b.wal@.subrange(la, lb)) + wal_view(c.wal@.subrange(lb, lc)));
    crate::graph::model::law_replay_concat(a@, wal_view(b.wal@.subrange(la, lb)), wal_view(c.wal@.subrange(lb, lc)));
    lemma_replayable_concat(a@, c.wal@.subrange(la, lb), c.wal@.subrange(lb, lc));
}

impl Graph {
    /// The label pool is consistent, every property map is in normal form, and the graph is well
    /// formed (see `gv_wf`).
    pub open spec fn wf(&self) -> bool {
        &&& self.labels.wf()
        &&& forall|i: int| 0 <= i < self.nodes@.len() ==> (#[trigger] self.nodes@[i]).properties.wf()
        &&& forall|i: int| 0 <= i < self.edges@.len() ==> (#[trigger] self.edges@[i]).properties.wf()
        &&& gv_wf(self@)
    }

    /// An empty graph with an empty log.
    pub fn new() -> (r: Graph)
        ensures
            r.wf(),
            r@.nodes.len() == 0,
            r@.edges.len() == 0,
            r@.labels.len() == 0,
            r@.indices.len() == 0,
            r.wal@.len() == 0,
            r@.tx is None,
            r.next_txid == 1,
    {
        let g = Graph {
            nodes: Vec::new(),
            edges: Vec::new(),
            labels: StringPool::new(),
            indices: Vec::new(),
            wal: Vec::new(),
            tx: None,
            next_txid: 1,
        };
        assert(g@.nodes =~= Seq::<NodeV>::empty());
        assert(g@.indices =~= Seq::<IndexV>::empty());
        g
    }

    /// Empties the graph and its log; the transaction ids stay as they were.
    pub fn clear(&mut self)
        ensures
            final(self).wf(),
            final(self)@.nodes.len() == 0,
            final(self)@.edges.len() == 0,
            final(self)@.labels.len() == 0,
            final(self)@.indices.len() == 0,
            final(self).wal@.len() == 0,
            final(self).tx == old(self).tx,
            final(self).next_txid == old(self).next_txid,
    {
        let t = self.tx;
        let n = self.next_txid;
        *self = Graph::new();
        let ghost fresh = self@;
        self.tx = t;
        self.next_txid = n;
        proof {
            crate::graph::model::lemma_wf_any_tx(fresh, t, n);
            assert(self@ == GraphV { tx: t, next_txid: n, ..fresh });
        }
    }

    /// The id of a label name, adding the name when it is new; the log is not touched.
    fn intern_label(&mut self, label: &str) -> (id: usize)
        requires
            old(self).wf(),
        ensures
            final(self).wf(),
            (final(self)@.labels, id as int) == intern(old(self)@.labels, label@),
            final(self)@ == g_add_label(old(self)@, label@),
            final(self).wal@ == old(self).wal@,
            final(self).nodes == old(self).nodes,
            final(self).edges == old(self).edges,
    {
        let ghost g0 = self@;
        let id = self.labels.get_or_intern(label);
        proof {
            assert(self@ =~= g_add_label(g0, label@));
            lemma_wf_add_label(g0, label@);
        }
        id
    }

    /// The id of a label name, adding the name (and logging it) when it is new.
    pub fn get_or_add_label(&mut self, label: &str) -> (id: usize)
        requires
            old(self).wf(),
        ensures
            final(self).wf(),
            (final(self)@.labels, id as int) == intern(old(self)@.labels, label@),
            final(self)@ == g_add_label(old(self)@, label@),
            final(self).nodes == old(self).nodes,
            final(self).edges == old(self).edges,
            if old(self)@.labels.contains(label@) {
                final(self).wal@ == old(self).wal@
            } else {
                logged_one(*old(self), *final(self), WalEntryV::AddLabel { label: label@ })
            },
    {
        let known = self.labels.get(label);
        let id = self.intern_label(label);
        match known {
            Some(_) => {},
            None => {
                self.wal.push(WalEntry::AddLabel { label: crate::text::own(label) });
                assert(wal_view(self.wal@) =~= wal_view(old(self).wal@).push(WalEntryV::AddLabel { label: label@ }));
                assert(self.wal@.subrange(0, old(self).wal@.len() as int) =~= old(self).wal@);
            },
        }
        id
    }

    /// Adds a node with the given id, label and properties, listing it in the indices of its
    /// label; the log is not touched.
    fn insert_node(&mut self, id: String, label: usize, properties: PropertyMap) -> (r: usize)
        requires
            old(self).wf(),
            properties.wf(),
        ensures
            final(self).wf(),
            r == old(self)@.nodes.len(),
            final(self)@ == g_add_node(old(self)@, id@, label, properties@),
            final(self).wal@ == old(self).wal@,
            final(self).nodes@[r as int].created_by == stamp(old(self).tx),
            final(self).nodes@[r as int].deleted_by is None,
            final(self).next_txid == old(self).next_txid,
    {
        let ghost g0 = self@;
        let node_id = self.nodes.len();
        let created = match self.tx {
            Some(t) => t,
            None => 0,
        };
        let node = Node::new(id, vec![label], Vec::new(), properties, created);
        proof {
            assert(node@.labels =~= seq![label]);
            assert(node@.edges =~= Seq::<usize>::empty());
        }
        self.nodes.push(node);
        let mut i: usize = 0;
        while i < self.indices.len()
            invariant
                g0 == old(self)@,
                node_id == g0.nodes.len(),
                gv_wf(g0),
                self.indices@.len() == g0.indices.len(),
                self.nodes@ == old(self).nodes@.push(node),
                self.labels == old(self).labels,
                self.tx == old(self).tx,
                self.next_txid == old(self).next_txid,
                self.edges == old(self).edges,
                self.wal == old(self).wal,
                properties@ == node.properties@,
                node.properties.wf(),
                i <= self.indices@.len(),
                forall|j: int| 0 <= j < i ==> (#[trigger] self.indices@[j])@ == index_new_node(g0.indices[j], label, node.properties@, node_id),
                forall|j: int| i <= j < self.indices@.len() ==> (#[trigger] self.indices@[j])@ == g0.indices[j],
            decreases self.indices@.len() - i,
        {
            if self.indices[i].label == label {
                let found = self.nodes[node_id].properties.get(self.indices[i].property.as_str());
                match found {
                    Some(v) => {
                        let vc = v.copy();
                        proof { assert(index_ok(g0, g0.indices[i as int])); }
                        self.indices[i].map.add(&vc, node_id);
                    },
                    None => {},
                }
            }
            i = i + 1;
        }
        proof {
            assert(self@.nodes =~= g0.nodes.push(node@));
            assert(self@.indices =~= g0.indices.map_values(|ix: IndexV| index_new_node(ix, label, node.properties@, node_id)));
            assert(self@ =~= g_add_node(g0, node@.id, label, node.properties@));
            lemma_wf_add_node(g0, node@.id, label, node.properties@);
            assert forall|j: int| 0 <= j < self.nodes@.len() implies (#[trigger] self.nodes@[j]).properties.wf() by {
                if j < g0.nodes.len() {
                    assert(self.nodes@[j] == old(self).nodes@[j]);
                }
            }
        }
        node_id
    }

    /// Adds a node with a fresh random id, one label and the given properties, created by the
    /// running transaction (see `stamp`), lists it in the indices of its label, and logs it. The
    /// result is the new node's id.
    pub(crate) fn log_new_node(&mut self, label: usize, properties: PropertyMap) -> (r: usize)
        requires
            old(self).wf(),
            properties.wf(),
        ensures
            final(self).wf(),
            r == old(self)@.nodes.len(),
            logged_one(*old(self), *final(self), WalEntryV::AddNode { id: final(self)@.nodes[r as int].id, label: label, properties: properties@ }),
            uuid_v4_text(final(self)@.nodes[r as int].id),
            final(self).nodes@[r as int].created_by == stamp(old(self).tx),
            final(self).nodes@[r as int].deleted_by is None,
            final(self).next_txid == old(self).next_txid,
    {
        let id = new_element_id();
        let props_copy = properties.copy();
        let id_copy = crate::text::copy_string(&id);
        let r = self.insert_node(id, label, properties);
        self.wal.push(WalEntry::AddNode { id: id_copy, label: label, properties: props_copy });
        proof {
            assert(wal_view(self.wal@) =~= wal_view(old(self).wal@).push(self.wal@.last()@));
            assert(self.wal@.subrange(0, old(self).wal@.len() as int) =~= old(self).wal@);
        }
        r
    }

    /// Adds a node created by transaction `txid`, with a fresh random id, one label and the given
    /// properties, lists it in the indices of its label, and logs it. The result is the new
    /// node's id; the running transaction of the graph is left as it was.
    pub fn add_node(&mut self, label: usize, properties: PropertyMap, txid: u64) -> (r: usize)
        requires
            old(self).wf(),
            properties.wf(),
        ensures
            final(self).wf(),
            r == old(self)@.nodes.len(),
            logged_one((Graph { tx: Some(txid), ..*old(self) }), (Graph { tx: Some(txid), ..*final(self) }),
                WalEntryV::AddNode { id: final(self)@.nodes[r as int].id, label: label, properties: properties@ }),
            final(self).tx == old(self).tx,
            final(self).next_txid == old(self).next_txid,
            uuid_v4_text(final(self)@.nodes[r as int].id),
            final(self).nodes@[r as int].created_by == txid,
            final(self).nodes@[r as int].deleted_by is None,
    {
        let saved = self.tx;
        self.tx = Some(txid);
        proof {
            crate::graph::model::lemma_wf_any_tx(old(self)@, Some(txid), old(self).next_txid);
            assert(self@ == GraphV { tx: Some(txid), ..old(self)@ });
        }
        let r = self.log_new_node(label, properties);
        let ghost mid = *self;
        self.tx = saved;
        proof {
            crate::graph::model::lemma_wf_any_tx(mid@, saved, mid.next_txid);
            assert(self@ == GraphV { tx: saved, ..mid@ });
            assert(mid == (Graph { tx: Some(txid), ..*self }));
        }
        r
    }

    /// Adds an edge with the given id between existing nodes, recording it in both end nodes;
    /// the log is not touched.
    fn insert_edge(&mut self, id: String, start: usize, end: usize, labels: Vec<usize>, properties: PropertyMap) -> (r: usize)
        requires
            old(self).wf(),
            properties.wf(),
            start < old(self)@.nodes.len(),
            end < old(self)@.nodes.len(),
        ensures
            final(self).wf(),
            r == old(self)@.edges.len(),
            final(self)@ == g_add_edge(old(self)@, id@, start, end, labels@, properties@),
            final(self).wal@ == old(self).wal@,
            final(self).edges@[r as int].created_by == stamp(old(self).tx),
            final(self).edges@[r as int].deleted_by is None,
            final(self).next_txid == old(self).next_txid,
    {
        let ghost g0 = self@;
        let e = self.edges.len();
        let created = match self.tx {
            Some(t) => t,
            None => 0,
        };
        let edge = Edge::new(id, labels, start, end, properties, created);
        self.edges.push(edge);
        self.nodes[start].edges.push(e);
        let ghost n1 = self.nodes@;
        self.nodes[end].edges.push(e);
        proof {
            let m1 = g0.nodes.update(start as int, with_edge(g0.nodes[start as int], e));
            assert(nodes_view(n1) =~= m1);
            assert(self@.nodes =~= m1.update(end as int, with_edge(m1[end as int], e)));
            assert(self@.edges =~= g0.edges.push(edge@));
            assert(self@ =~= g_add_edge(g0, edge@.id, start, end, edge@.labels, edge@.properties));
            lemma_wf_add_edge(g0, edge@.id, start, end, edge@.labels, edge@.properties);
            assert forall|j: int| 0 <= j < self.nodes@.len() implies (#[trigger] self.nodes@[j]).properties.wf() by {
                assert(self.nodes@[j].properties == old(self).nodes@[j].properties);
            }
            assert forall|j: int| 0 <= j < self.edges@.len() implies (#[trigger] self.edges@[j]).properties.wf() by {
                if j < g0.edges.len() {
                    assert(self.edges@[j] == old(self).edges@[j]);
                }
            }
        }
        e
    }

    /// Adds an edge with a fresh random id from `start` to `end`, created by the running
    /// transaction (see `stamp`), records it in both end nodes, and logs it. The result is the
    /// new edge's id.
    pub(crate) fn log_new_edge(&mut self, start: usize, end: usize, labels: Vec<usize>, properties: PropertyMap) -> (r: usize)
        requires
            old(self).wf(),
            properties.wf(),
            start < old(self)@.nodes.len(),
            end < old(self)@.nodes.len(),
        ensures
            final(self).wf(),
            r == old(self)@.edges.len(),
            logged_one(*old(self), *final(self), WalEntryV::AddEdge {
                id: final(self)@.edges[r as int].id, start: start, end: end, labels: labels@, properties: properties@,
            }),
            uuid_v4_text(final(self)@.edges[r as int].id),
            final(self).edges@[r as int].created_by == stamp(old(self).tx),
            final(self).edges@[r as int].deleted_by is None,
            final(self).next_txid == old(self).next_txid,
    {
        let id = new_element_id();
        let props_copy = properties.copy();
        let id_copy = crate::text::copy_string(&id);
        let labels_copy = copy_ids(&labels);
        let r = self.insert_edge(id, start, end, labels, properties);
        self.wal.push(WalEntry::AddEdge { id: id_copy, start: start, end: end, labels: labels_copy, properties: props_copy });
        proof {
            assert(wal_view(self.wal@) =~= wal_view(old(self).wal@).push(self.wal@.last()@));
            assert(self.wal@.subrange(0, old(self).wal@.len() as int) =~= old(self).wal@);
        }
        r
    }

    /// Adds an edge created by transaction `txid`, with a fresh random id, from `start` to `end`,
    /// records it in both end nodes, and logs it. The result is the new edge's id; the running
    /// transaction of the graph is left as it was.
    pub fn add_edge(&mut self, start: usize, end: usize, labels: Vec<usize>, properties: PropertyMap, txid: u64) -> (r: usize)
        requires
            old(self).wf(),
            properties.wf(),
            start < old(self)@.nodes.len(),
            end < old(self)@.nodes.len(),
        ensures
            final(self).wf(),
            r == old(self)@.edges.len(),
            logged_one((Graph { tx: Some(txid), ..*old(self) }), (Graph { tx: Some(txid), ..*final(self) }),
                WalEntryV::AddEdge {
                    id: final(self)@.edges[r as int].id, start: start, end: end, labels: labels@, properties: properties@,
                }),
            final(self).tx == old(self).tx,
            final(self).next_txid == old(self).next_txid,
            uuid_v4_text(final(self)@.edges[r as int].id),
            final(self).edges@[r as int].created_by == txid,
            final(self).edges@[r as int].deleted_by is None,
    {
        let saved = self.tx;
        self.tx = Some(txid);
        proof {
            crate::graph::model::lemma_wf_any_tx(old(self)@, Some(txid), old(self).next_txid);
            assert(self@ == GraphV { tx: Some(txid), ..old(self)@ });
        }
        let r = self.log_new_edge(start, end, labels, properties);
        let ghost mid = *self;
        self.tx = saved;
        proof {
            crate::graph::model::lemma_wf_any_tx(mid@, saved, mid.next_txid);
            assert(self@ == GraphV { tx: saved, ..mid@ });
            assert(mid == (Graph { tx: Some(txid), ..*self }));
        }
        r
    }

    /// The position of the index for `label` and `property`, if there is one.
    fn find_index(&self, label: usize, property: &str) -> (r: Option<usize>)
        requires
            self.wf(),
        ensures
            match r {
                Some(p) => p < self@.indices.len() && index_at(self@.indices, label, property@, p as int)
                    && has_index(self@.indices, label, property@) && index_pos(self@.indices, label, property@) == p,
                None => !has_index(self@.indices, label, property@),
            },
    {
        let mut i: usize = 0;
        while i < self.indices.len()
            invariant
                self.wf(),
                i <= self.indices@.len(),
                forall|j: int| 0 <= j < i ==> !index_at(self@.indices, label, property@, j),
            decreases self.indices@.len() - i,
        {
            if self.indices[i].label == label && crate::keyed::str_eq(self.indices[i].property.as_str(), property) {
                proof {
                    let g = self@;
                    assert(index_at(g.indices, label, property@, i as int));
                    let q = index_pos(g.indices, label, property@);
                    assert(index_at(g.indices, label, property@, q));
                }
                return Some(i);
            }
            i = i + 1;
        }
        None
    }
}

impl Graph {
    /// Creates the index for `label` and `property` and lists in it every node that has the label
    /// and the property; an index that exists is left as it is, and the log is not touched.
    fn build_index(&mut self, label: usize, property: &str, kind: IndexType)
        requires
            old(self).wf(),
        ensures
            final(self).wf(),
            final(self)@ == g_create_index(old(self)@, label, property@, kind),
            final(self).wal@ == old(self).wal@,
            has_index(final(self)@.indices, label, property@),
    {
        let ghost g0 = self@;
        if self.find_index(label, property).is_some() {
            return;
        }
        let m = IndexMap::empty(kind);
        self.indices.push(PropertyIndex { label: label, property: crate::text::own(property), map: m });
        let p = self.indices.len() - 1;
        let ghost start = self.indices@[p as int].map.entries();
        proof {
            assert(entries_unique(start));
        }
        let n = self.nodes.len();
        let mut k: usize = 0;
        while k < n
            invariant
                g0 == old(self)@,
                old(self).wf(),
                n == g0.nodes.len(),
                n == self.nodes@.len(),
                self.nodes == old(self).nodes,
                self.edges == old(self).edges,
                self.labels == old(self).labels,
                self.tx == old(self).tx,
                self.next_txid == old(self).next_txid,
                self.wal == old(self).wal,
                p < self.indices@.len(),
                k <= n,
                self.indices@[p as int].label == label,
                self.indices@[p as int].property@ == property@,
                self.indices@[p as int].map.kind() == (if has_index(g0.indices, label, property@) { g0.indices[p as int].kind } else { kind }),
                self.indices@[p as int].map.entries() == populate(start, g0.nodes, label, property@, k as nat),
                entries_unique(start),
                forall|j: int| 0 <= j < self.indices@.len() && j != p ==> #[trigger] self.indices@[j] == old(self).indices@[j],
                self.indices@.len() == (if has_index(g0.indices, label, property@) { g0.indices.len() } else { g0.indices.len() + 1 }),
            decreases n - k,
        {
            proof {
                crate::graph::model::lemma_populate(start, g0.nodes, label, property@, k as nat, PropV::Boolean(false), 0);
            }
            if ids_contain(&self.nodes[k].labels, label) {
                match self.nodes[k].properties.get(property) {
                    Some(v) => {
                        let vc = v.copy();
                        self.indices[p].map.add(&vc, k);
                    },
                    None => {},
                }
            }
            k = k + 1;
        }
        proof {
            let h = g_create_index(g0, label, property@, kind);
            if has_index(g0.indices, label, property@) {
                assert(self@.indices =~= h.indices);
            } else {
                assert(self@.indices =~= h.indices);
            }
            assert(self@ =~= h);
            lemma_wf_create_index(g0, label, property@, kind);
            assert(index_at(self@.indices, label, property@, p as int));
        }
    }

    /// Creates the index for `label` and `property` (see `build_index`) and logs it.
    pub fn create_index(&mut self, label: usize, property: String, index_type: IndexType)
        requires
            old(self).wf(),
        ensures
            final(self).wf(),
            logged_one(*old(self), *final(self), WalEntryV::CreateIndex { label: label, property: property@, index_type: index_type }),
            has_index(final(self)@.indices, label, property@),
    {
        self.build_index(label, property.as_str(), index_type);
        self.wal.push(WalEntry::CreateIndex { label: label, property: property, index_type: index_type });
        proof {
            assert(wal_view(self.wal@) =~= wal_view(old(self).wal@).push(self.wal@.last()@));
            assert(self.wal@.subrange(0, old(self).wal@.len() as int) =~= old(self).wal@);
        }
    }

    /// Removes the index for `label` and `property`, if there is one; the log is not touched.
    fn remove_index(&mut self, label: usize, property: &str)
        requires
            old(self).wf(),
        ensures
            final(self).wf(),
            final(self)@ == g_drop_index(old(self)@, label, property@),
            final(self).wal@ == old(self).wal@,
    {
        let ghost g0 = self@;
        match self.find_index(label, property) {
            Some(p) => {
                self.indices.remove(p);
                assert(self@.indices =~= g0.indices.remove(p as int));
            },
            None => {},
        }
        proof {
            assert(self@ =~= g_drop_index(g0, label, property@));
            lemma_wf_drop_index(g0, label, property@);
        }
    }

    /// Removes the index for `label` and `property`, if there is one, and logs it.
    pub fn drop_index(&mut self, label: usize, property: String)
        requires
            old(self).wf(),
        ensures
            final(self).wf(),
            logged_one(*old(self), *final(self), WalEntryV::DropIndex { label: label, property: property@ }),
    {
        self.remove_index(label, property.as_str());
        self.wal.push(WalEntry::DropIndex { label: label, property: property });
        proof {
            assert(wal_view(self.wal@) =~= wal_view(old(self).wal@).push(self.wal@.last()@));
            assert(self.wal@.subrange(0, old(self).wal@.len() as int) =~= old(self).wal@);
        }
    }
}

impl Graph {
    /// Sets property `key` of node `n` to `value`, moving the node within the indices of its
    /// labels for that property; the log is not touched.
    fn put_node_property(&mut self, n: usize, key: &str, value: &PropertyValue)
        requires
            old(self).wf(),
            n < old(self)@.nodes.len(),
            value.wf(),
        ensures
            final(self).wf(),
            final(self)@ == g_set_node_property(old(self)@, n, key@, value@),
            final(self).wal@ == old(self).wal@,
    {
        let ghost g0 = self@;
        let ghost nd = g0.nodes[n as int];
        let total = self.nodes.len();
        assert(g0.nodes.len() == total);
        let old_value: Option<PropertyValue> = match self.nodes[n].properties.get(key) {
            Some(v) => Some(v.copy()),
            None => None,
        };
        let node_labels = copy_ids(&self.nodes[n].labels);
        self.nodes[n].properties.insert(crate::text::own(key), value.copy());
        let mut i: usize = 0;
        while i < self.indices.len()
            invariant
                g0 == old(self)@,
                nd == g0.nodes[n as int],
                gv_wf(g0),
                n < g0.nodes.len(),
                node_labels@ == nd.labels,
                match old_value {
                    Some(ov) => nd.properties.contains_key(key@) && nd.properties[key@] == ov@,
                    None => !nd.properties.contains_key(key@),
                },
                self.indices@.len() == g0.indices.len(),
                self.nodes@.len() == old(self).nodes@.len(),
                forall|j: int| 0 <= j < self.nodes@.len() && j != n ==> #[trigger] self.nodes@[j] == old(self).nodes@[j],
                self.nodes@[n as int]@ == (NodeV { properties: nd.properties.insert(key@, value@), ..nd }),
                self.nodes@[n as int].properties.wf(),
                self.labels == old(self).labels,
                self.tx == old(self).tx,
                self.next_txid == old(self).next_txid,
                self.edges == old(self).edges,
                self.wal == old(self).wal,
                i <= self.indices@.len(),
                forall|j: int| 0 <= j < i ==> (#[trigger] self.indices@[j])@ == index_set(g0.indices[j], nd, key@, value@, n),
                forall|j: int| i <= j < self.indices@.len() ==> (#[trigger] self.indices@[j])@ == g0.indices[j],
            decreases self.indices@.len() - i,
        {
            proof { assert(index_ok(g0, g0.indices[i as int])); }
            if ids_contain(&node_labels, self.indices[i].label) && crate::keyed::str_eq(self.indices[i].property.as_str(), key) {
                match &old_value {
                    Some(ov) => {
                        proof {
                            crate::graph::types::lemma_index_ops_unique(g0.indices[i as int].entries, ov@, n);
                        }
                        self.indices[i].map.remove(ov, n);
                    },
                    None => {},
                }
                self.indices[i].map.add_once(value, n);
            }
            i = i + 1;
        }
        proof {
            assert(self@.nodes =~= g0.nodes.update(n as int, NodeV { properties: nd.properties.insert(key@, value@), ..nd }));
            assert(self@.indices =~= g0.indices.map_values(|ix: IndexV| index_set(ix, nd, key@, value@, n)));
            assert(self@ =~= g_set_node_property(g0, n, key@, value@));
            lemma_wf_set_node_property(g0, n, key@, value@);
            assert forall|j: int| 0 <= j < self.nodes@.len() implies (#[trigger] self.nodes@[j]).properties.wf() by {
                if j != n {
                    assert(self.nodes@[j] == old(self).nodes@[j]);
                }
            }
        }
    }

    /// Sets property `key` of node `n` to `value` (see `put_node_property`) and logs it.
    pub fn set_node_property(&mut self, n: usize, key: String, value: PropertyValue)
        requires
            old(self).wf(),
            n < old(self)@.nodes.len(),
            value.wf(),
        ensures
            final(self).wf(),
            logged_one(*old(self), *final(self), WalEntryV::SetNodeProperty { node_id: n, key: key@, value: value@ }),
    {
        self.put_node_property(n, key.as_str(), &value);
        self.wal.push(WalEntry::SetNodeProperty { node_id: n, key: key, value: value });
        proof {
            assert(wal_view(self.wal@) =~= wal_view(old(self).wal@).push(self.wal@.last()@));
            assert(self.wal@.subrange(0, old(self).wal@.len() as int) =~= old(self).wal@);
        }
    }

    /// Marks node `n` deleted and takes it out of the indices of its labels; the log is not
    /// touched.
    fn mark_node_deleted(&mut self, n: usize)
        requires
            old(self).wf(),
            n < old(self)@.nodes.len(),
        ensures
            final(self).wf(),
            final(self)@ == g_delete_node(old(self)@, n),
            final(self).wal@ == old(self).wal@,
            final(self).nodes@[n as int].created_by == old(self).nodes@[n as int].created_by,
            final(self).nodes@[n as int].deleted_by == deleted_stamp(old(self).tx, old(self).nodes@[n as int].deleted_by),
    {
        let ghost g0 = self@;
        let ghost nd = g0.nodes[n as int];
        let total = self.nodes.len();
        assert(g0.nodes.len() == total);
        self.nodes[n].deleted = true;
        match self.tx {
            Some(t) => {
                self.nodes[n].deleted_by = Some(t);
            },
            None => {},
        }
        let mut i: usize = 0;
        while i < self.indices.len()
            invariant
                g0 == old(self)@,
                nd == g0.nodes[n as int],
                gv_wf(g0),
                n < g0.nodes.len(),
                self.indices@.len() == g0.indices.len(),
                self.nodes@.len() == old(self).nodes@.len(),
                forall|j: int| 0 <= j < self.nodes@.len() && j != n ==> #[trigger] self.nodes@[j] == old(self).nodes@[j],
                self.nodes@[n as int]@ == (NodeV { deleted: true, deleted_by: deleted_stamp(g0.tx, nd.deleted_by), ..nd }),
                self.nodes@[n as int].properties == old(self).nodes@[n as int].properties,
                self.nodes@[n as int].created_by == old(self).nodes@[n as int].created_by,
                self.nodes@[n as int].deleted_by == deleted_stamp(old(self).tx, old(self).nodes@[n as int].deleted_by),
                self.labels == old(self).labels,
                self.tx == old(self).tx,
                self.next_txid == old(self).next_txid,
                self.edges == old(self).edges,
                self.wal == old(self).wal,
                i <= self.indices@.len(),
                forall|j: int| 0 <= j < i ==> (#[trigger] self.indices@[j])@ == index_delete(g0.indices[j], nd, n),
                forall|j: int| i <= j < self.indices@.len() ==> (#[trigger] self.indices@[j])@ == g0.indices[j],
            decreases self.indices@.len() - i,
        {
            if ids_contain(&self.nodes[n].labels, self.indices[i].label) {
                self.indices[i].map.remove_all(n);
            }
            i = i + 1;
        }
        proof {
            assert(self@.nodes =~= g0.nodes.update(n as int, NodeV { deleted: true, deleted_by: deleted_stamp(g0.tx, nd.deleted_by), ..nd }));
            assert(self@.indices =~= g0.indices.map_values(|ix: IndexV| index_delete(ix, nd, n)));
            assert(self@ =~= g_delete_node(g0, n));
            lemma_wf_delete_node(g0, n);
            assert forall|j: int| 0 <= j < self.nodes@.len() implies (#[trigger] self.nodes@[j]).properties.wf() by {
                assert(self.nodes@[j].properties == old(self).nodes@[j].properties);
            }
        }
    }

    /// Marks node `n` deleted (see `mark_node_deleted`) and logs it.
    pub fn delete_node(&mut self, n: usize)
        requires
            old(self).wf(),
            n < old(self)@.nodes.len(),
        ensures
            final(self).wf(),
            logged_one(*old(self), *final(self), WalEntryV::DeleteNode { node_id: n }),
            final(self).nodes@[n as int].created_by == old(self).nodes@[n as int].created_by,
            final(self).nodes@[n as int].deleted_by == deleted_stamp(old(self).tx, old(self).nodes@[n as int].deleted_by),
    {
        self.mark_node_deleted(n);
        self.wal.push(WalEntry::DeleteNode { node_id: n });
        proof {
            assert(wal_view(self.wal@) =~= wal_view(old(self).wal@).push(self.wal@.last()@));
            assert(self.wal@.subrange(0, old(self).wal@.len() as int) =~= old(self).wal@);
        }
    }

    /// Marks edge `e` deleted; the log is not touched.
    fn mark_edge_deleted(&mut self, e: usize)
        requires
            old(self).wf(),
            e < old(self)@.edges.len(),
        ensures
            final(self).wf(),
            final(self)@ == g_delete_edge(old(self)@, e),
            final(self).wal@ == old(self).wal@,
            final(self).edges@[e as int].created_by == old(self).edges@[e as int].created_by,
            final(self).edges@[e as int].deleted_by == deleted_stamp(old(self).tx, old(self).edges@[e as int].deleted_by),
    {
        let ghost g0 = self@;
        self.edges[e].deleted = true;
        match self.tx {
            Some(t) => {
                self.edges[e].deleted_by = Some(t);
            },
            None => {},
        }
        proof {
            assert(self@.edges =~= g0.edges.update(e as int, EdgeV { deleted: true, deleted_by: deleted_stamp(g0.tx, g0.edges[e as int].deleted_by), ..g0.edges[e as int] }));
            assert(self@ =~= g_delete_edge(g0, e));
            lemma_wf_delete_edge(g0, e);
            assert forall|j: int| 0 <= j < self.edges@.len() implies (#[trigger] self.edges@[j]).properties.wf() by {
                assert(self.edges@[j].properties == old(self).edges@[j].properties);
            }
        }
    }

    /// Marks edge `e` deleted and logs it.
    pub fn delete_edge(&mut self, e: usize)
        requires
            old(self).wf(),
            e < old(self)@.edges.len(),
        ensures
            final(self).wf(),
            logged_one(*old(self), *final(self), WalEntryV::DeleteEdge { edge_id: e }),
            final(self).edges@[e as int].created_by == old(self).edges@[e as int].created_by,
            final(self).edges@[e as int].deleted_by == deleted_stamp(old(self).tx, old(self).edges@[e as int].deleted_by),
    {
        self.mark_edge_deleted(e);
        self.wal.push(WalEntry::DeleteEdge { edge_id: e });
        proof {
            assert(wal_view(self.wal@) =~= wal_view(old(self).wal@).push(self.wal@.last()@));
            assert(self.wal@.subrange(0, old(self).wal@.len() as int) =~= old(self).wal@);
        }
    }
}

impl Graph {
    /// Removes property `key` of node `n`, taking the node out of the indices of its labels for
    /// that property; the log is not touched.
    fn drop_node_property(&mut self, n: usize, key: &str)
        requires
            old(self).wf(),
            n < old(self)@.nodes.len(),
        ensures
            final(self).wf(),
            final(self)@ == g_remove_node_property(old(self)@, n, key@),
            final(self).wal@ == old(self).wal@,
    {
        let ghost g0 = self@;
        let ghost nd = g0.nodes[n as int];
        let total = self.nodes.len();
        assert(g0.nodes.len() == total);
        let node_labels = copy_ids(&self.nodes[n].labels);
        let old_value = self.nodes[n].properties.remove(key);
        let mut i: usize = 0;
        while i < self.indices.len()
            invariant
                g0 == old(self)@,
                nd == g0.nodes[n as int],
                gv_wf(g0),
                n < g0.nodes.len(),
                node_labels@ == nd.labels,
                match old_value {
                    Some(ov) => nd.properties.contains_key(key@) && nd.properties[key@] == ov@,
                    None => !nd.properties.contains_key(key@),
                },
                self.indices@.len() == g0.indices.len(),
                self.nodes@.len() == old(self).nodes@.len(),
                forall|j: int| 0 <= j < self.nodes@.len() && j != n ==> #[trigger] self.nodes@[j] == old(self).nodes@[j],
                self.nodes@[n as int]@ == (NodeV { properties: nd.properties.remove(key@), ..nd }),
                self.nodes@[n as int].properties.wf(),
                self.labels == old(self).labels,
                self.tx == old(self).tx,
                self.next_txid == old(self).next_txid,
                self.edges == old(self).edges,
                self.wal == old(self).wal,
                i <= self.indices@.len(),
                forall|j: int| 0 <= j < i ==> (#[trigger] self.indices@[j])@ == index_unset(g0.indices[j], nd, key@, n),
                forall|j: int| i <= j < self.indices@.len() ==> (#[trigger] self.indices@[j])@ == g0.indices[j],
            decreases self.indices@.len() - i,
        {
            proof { assert(index_ok(g0, g0.indices[i as int])); }
            match &old_value {
                Some(ov) => {
                    if ids_contain(&node_labels, self.indices[i].label) && crate::keyed::str_eq(self.indices[i].property.as_str(), key) {
                        self.indices[i].map.remove(ov, n);
                    }
                },
                None => {},
            }
            i = i + 1;
        }
        proof {
            assert(self@.nodes =~= g0.nodes.update(n as int, NodeV { properties: nd.properties.remove(key@), ..nd }));
            assert(self@.indices =~= g0.indices.map_values(|ix: IndexV| index_unset(ix, nd, key@, n)));
            assert(self@ =~= g_remove_node_property(g0, n, key@));
            lemma_wf_remove_node_property(g0, n, key@);
            assert forall|j: int| 0 <= j < self.nodes@.len() implies (#[trigger] self.nodes@[j]).properties.wf() by {
                if j != n {
                    assert(self.nodes@[j] == old(self).nodes@[j]);
                }
            }
        }
    }

    /// Removes label `label` from node `n`, taking the node out of that label's indices; the log
    /// is not touched.
    fn drop_node_label(&mut self, n: usize, label: usize)
        requires
            old(self).wf(),
            n < old(self)@.nodes.len(),
        ensures
            final(self).wf(),
            final(self)@ == g_remove_node_label(old(self)@, n, label),
            final(self).wal@ == old(self).wal@,
    {
        let ghost g0 = self@;
        let ghost nd = g0.nodes[n as int];
        let total = self.nodes.len();
        assert(g0.nodes.len() == total);
        proof { nd.labels.index_of_first_ensures(label); }
        let mut pos: usize = 0;
        while pos < self.nodes[n].labels.len() && self.nodes[n].labels[pos] != label
            invariant
                n < self.nodes@.len(),
                self.nodes == old(self).nodes,
                nd == g0.nodes[n as int],
                nd.labels == self.nodes@[n as int].labels@,
                g0 == old(self)@,
                pos <= nd.labels.len(),
                forall|j: int| 0 <= j < pos ==> nd.labels[j] != label,
            decreases nd.labels.len() - pos,
        {
            pos = pos + 1;
        }
        if pos < self.nodes[n].labels.len() {
            proof {
                assert(nd.labels[pos as int] == label);
                assert(nd.labels.contains(label));
                match nd.labels.index_of_first(label) {
                    Some(q) => {
                        assert(q == pos);
                    },
                    None => {},
                }
            }
            self.nodes[n].labels.remove(pos);
        } else {
            proof {
                assert(!nd.labels.contains(label));
            }
        }
        assert(self.nodes@[n as int].labels@ == without_first(nd.labels, label));
        let mut i: usize = 0;
        while i < self.indices.len()
            invariant
                g0 == old(self)@,
                old(self).wf(),
                nd == g0.nodes[n as int],
                gv_wf(g0),
                n < g0.nodes.len(),
                self.indices@.len() == g0.indices.len(),
                self.nodes@.len() == old(self).nodes@.len(),
                forall|j: int| 0 <= j < self.nodes@.len() && j != n ==> #[trigger] self.nodes@[j] == old(self).nodes@[j],
                self.nodes@[n as int]@ == (NodeV { labels: without_first(nd.labels, label), ..nd }),
                self.nodes@[n as int].properties == old(self).nodes@[n as int].properties,
                self.labels == old(self).labels,
                self.tx == old(self).tx,
                self.next_txid == old(self).next_txid,
                self.edges == old(self).edges,
                self.wal == old(self).wal,
                i <= self.indices@.len(),
                forall|j: int| 0 <= j < i ==> (#[trigger] self.indices@[j])@ == index_unlabel(g0.indices[j], nd, label, n),
                forall|j: int| i <= j < self.indices@.len() ==> (#[trigger] self.indices@[j])@ == g0.indices[j],
            decreases self.indices@.len() - i,
        {
            proof { assert(index_ok(g0, g0.indices[i as int])); }
            if self.indices[i].label == label {
                match self.nodes[n].properties.get(self.indices[i].property.as_str()) {
                    Some(v) => {
                        let vc = v.copy();
                        self.indices[i].map.remove(&vc, n);
                    },
                    None => {},
                }
            }
            i = i + 1;
        }
        proof {
            assert(self@.nodes =~= g0.nodes.update(n as int, NodeV { labels: without_first(nd.labels, label), ..nd }));
            assert(self@.indices =~= g0.indices.map_values(|ix: IndexV| index_unlabel(ix, nd, label, n)));
            assert(self@ =~= g_remove_node_label(g0, n, label));
            lemma_wf_remove_node_label(g0, n, label);
            assert forall|j: int| 0 <= j < self.nodes@.len() implies (#[trigger] self.nodes@[j]).properties.wf() by {
                assert(self.nodes@[j].properties == old(self).nodes@[j].properties);
            }
        }
    }

    /// The log entry can be redone on this graph: the ids it names exist.
    pub fn can_apply(&self, e: &WalEntry) -> (r: bool)
        ensures
            r == wal_applicable(self@, e@),
    {
        match e {
            WalEntry::AddEdge { start, end, .. } => *start < self.nodes.len() && *end < self.nodes.len(),
            WalEntry::SetNodeProperty { node_id, .. } => *node_id < self.nodes.len(),
            WalEntry::DeleteNode { node_id } => *node_id < self.nodes.len(),
            WalEntry::DeleteEdge { edge_id } => *edge_id < self.edges.len(),
            WalEntry::RemoveNodeProperty { node_id, .. } => *node_id < self.nodes.len(),
            WalEntry::RemoveNodeLabel { node_id, .. } => *node_id < self.nodes.len(),
            _ => true,
        }
    }

    /// Redoes a log entry read back from storage; the log is not touched.
    pub fn apply_wal_entry(&mut self, e: &WalEntry)
        requires
            old(self).wf(),
            wal_applicable(old(self)@, e@),
            match e@ {
                WalEntryV::AddNode { .. } | WalEntryV::AddEdge { .. } => true,
                WalEntryV::SetNodeProperty { value, .. } => crate::property::propv_wf(value),
                _ => true,
            },
            match e {
                WalEntry::AddNode { properties, .. } => properties.wf(),
                WalEntry::AddEdge { properties, .. } => properties.wf(),
                _ => true,
            },
        ensures
            final(self).wf(),
            final(self)@ == wal_apply(old(self)@, e@),
            final(self).wal@ == old(self).wal@,
    {
        match e {
            WalEntry::AddLabel { label } => {
                let _ = self.intern_label(label.as_str());
            },
            WalEntry::AddNode { id, label, properties } => {
                let _ = self.insert_node(crate::text::copy_string(id), *label, properties.copy());
            },
            WalEntry::AddEdge { id, start, end, labels, properties } => {
                let _ = self.insert_edge(crate::text::copy_string(id), *start, *end, copy_ids(labels), properties.copy());
            },
            WalEntry::CreateIndex { label, property, index_type } => {
                self.build_index(*label, property.as_str(), *index_type);
            },
            WalEntry::SetNodeProperty { node_id, key, value } => {
                self.put_node_property(*node_id, key.as_str(), value);
            },
            WalEntry::DeleteNode { node_id } => {
                self.mark_node_deleted(*node_id);
            },
            WalEntry::DeleteEdge { edge_id } => {
                self.mark_edge_deleted(*edge_id);
            },
            WalEntry::RemoveNodeProperty { node_id, key } => {
                self.drop_node_property(*node_id, key.as_str());
            },
            WalEntry::RemoveNodeLabel { node_id, label_id } => {
                self.drop_node_label(*node_id, *label_id);
            },
            WalEntry::DropIndex { label, property } => {
                self.remove_index(*label, property.as_str());
            },
        }
    }

    /// Redoes a logged change when it can be: its ids exist and its values are well formed.
    /// Returns whether it did; nothing changes when it did not, and the log is not touched.
    pub fn replay_entry(&mut self, e: &WalEntry) -> (applied: bool)
        requires
            old(self).wf(),
        ensures
            final(self).wf(),
            final(self).wal@ == old(self).wal@,
            applied ==> final(self)@ == wal_apply(old(self)@, e@),
            !applied ==> *final(self) == *old(self),
            applied == (wal_applicable(old(self)@, e@) && match e {
                WalEntry::AddNode { properties, .. } => properties.wf(),
                WalEntry::AddEdge { properties, .. } => properties.wf(),
                WalEntry::SetNodeProperty { value, .. } => value.wf(),
                _ => true,
            }),
    {
        if !self.can_apply(e) {
            return false;
        }
        let ok = match e {
            WalEntry::AddNode { properties, .. } => properties.check_wf(),
            WalEntry::AddEdge { properties, .. } => properties.check_wf(),
            WalEntry::SetNodeProperty { value, .. } => value.check_wf(),
            _ => true,
        };
        if !ok {
            return false;
        }
        self.apply_wal_entry(e);
        true
    }

    /// Redoes log entries read back from storage, in order, stopping at the first one that
    /// cannot be redone (see `replay_entry`); the log is not touched. It redoes them all exactly
    /// when they are `replayable`.
    pub fn replay_log(&mut self, es: &Vec<WalEntry>) -> (r: bool)
        requires
            old(self).wf(),
        ensures
            final(self).wf(),
            final(self).wal@ == old(self).wal@,
            r == replayable(old(self)@, es@),
            r ==> final(self)@ == wal_replay(old(self)@, wal_view(es@)),
    {
        let ghost g0 = self@;
        let mut i: usize = 0;
        proof { assert(es@.take(0) =~= Seq::<WalEntry>::empty()); assert(wal_view(es@.take(0)) =~= Seq::<WalEntryV>::empty()); }
        while i < es.len()
            invariant
                self.wf(),
                self.wal@ == old(self).wal@,
                g0 == old(self)@,
                i <= es@.len(),
                replayable(g0, es@.take(i as int)),
                self@ == wal_replay(g0, wal_view(es@.take(i as int))),
            decreases es@.len() - i,
        {
            let ghost before = self@;
            proof {
                assert(es@.take(i as int + 1).drop_last() =~= es@.take(i as int));
                assert(es@.take(i as int + 1).last() == es@[i as int]);
                assert(wal_view(es@.take(i as int + 1)) =~= wal_view(es@.take(i as int)).push(es@[i as int]@));
                crate::graph::model::lemma_replay_push(g0, wal_view(es@.take(i as int)), es@[i as int]@);
            }
            if !self.replay_entry(&es[i]) {
                proof {
                    if replayable(g0, es@) {
                        lemma_replayable_prefix(g0, es@, i as int + 1);
                        assert(entry_ok(before, es@[i as int]));
                    }
                }
                return false;
            }
            i = i + 1;
        }
        proof { assert(es@.take(es@.len() as int) =~= es@); }
        true
    }

    /// Hands out the log kept since it was last taken, leaving it empty.
    pub fn take_wal(&mut self) -> (r: Vec<WalEntry>)
        ensures
            r@ == old(self).wal@,
            final(self).wal@.len() == 0,
            final(self)@ == old(self)@,
            final(self).wf() == old(self).wf(),
    {
        let mut r: Vec<WalEntry> = Vec::new();
        std::mem::swap(&mut r, &mut self.wal);
        r
    }
}

/// `x` occurs in `ids`.
pub fn ids_contain(ids: &Vec<usize>, x: usize) -> (r: bool)
    ensures
        r == ids@.contains(x),
{
    let mut i: usize = 0;
    while i < ids.len()
        invariant
            i <= ids@.len(),
            forall|j: int| 0 <= j < i ==> ids@[j] != x,
        decreases ids@.len() - i,
    {
        if ids[i] == x {
            return true;
        }
        i = i + 1;
    }
    false
}

} // verus!
