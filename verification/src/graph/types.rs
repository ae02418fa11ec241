use vstd::prelude::*;
use crate::property::{PropV, PropertyMap, PropertyValue};

verus! {

/// The kind of a property index.
#[derive(Debug, Clone, Copy, PartialEq, Eq)]
pub enum IndexType {
    Hash,
    BTree,
}

/// What an index holds: for each indexed value, the ids of the nodes that hold it.
pub type IndexEntries = Vec<(PropertyValue, Vec<usize>)>;

/// The mathematical form of index entries.
pub type EntriesV = Seq<(PropV, Seq<usize>)>;

/// A property index of one of the two kinds.
#[derive(Debug)]
pub enum IndexMap {
    Hash(IndexEntries),
    BTree(IndexEntries),
}

pub open spec fn entries_view(es: Seq<(PropertyValue, Vec<usize>)>) -> EntriesV {
    es.map_values(|e: (PropertyValue, Vec<usize>)| (e.0@, e.1@))
}

/// No value occurs twice.
pub open spec fn entries_unique(es: EntriesV) -> bool {
    forall|i: int, j: int| 0 <= i < es.len() && 0 <= j < es.len() && i != j ==> es[i].0 != es[j].0
}

/// Entry `i` is the one for `v`.
pub open spec fn entry_at(es: EntriesV, v: PropV, i: int) -> bool {
    0 <= i < es.len() && es[i].0 == v
}

/// Some entry is for `v`.
pub open spec fn has_entry(es: EntriesV, v: PropV) -> bool {
    exists|i: int| #[trigger] entry_at(es, v, i)
}

/// The position of the entry for `v`.
pub open spec fn entry_pos(es: EntriesV, v: PropV) -> int {
    choose|i: int| #[trigger] entry_at(es, v, i)
}

/// The node ids listed under `v` (none when `v` has no entry).
pub open spec fn ids_for(es: EntriesV, v: PropV) -> Seq<usize> {
    if has_entry(es, v) {
        es[entry_pos(es, v)].1
    } else {
        Seq::empty()
    }
}

/// No value lists a node twice.
pub open spec fn ids_distinct(es: EntriesV) -> bool {
    forall|v: PropV| #[trigger] ids_for(es, v).no_duplicates()
}

/// `id` listed under `v`, after any ids already there.
pub open spec fn index_add(es: EntriesV, v: PropV, id: usize) -> EntriesV {
    if has_entry(es, v) {
        es.update(entry_pos(es, v), (v, es[entry_pos(es, v)].1.push(id)))
    } else {
        es.push((v, seq![id]))
    }
}

/// `id` listed under `v` unless it is there already.
pub open spec fn index_add_once(es: EntriesV, v: PropV, id: usize) -> EntriesV {
    if has_entry(es, v) && es[entry_pos(es, v)].1.contains(id) {
        es
    } else {
        index_add(es, v, id)
    }
}

pub open spec fn other_than(id: usize) -> spec_fn(usize) -> bool {
    |x: usize| x != id
}

/// `id` no longer listed under `v`.
pub open spec fn index_remove(es: EntriesV, v: PropV, id: usize) -> EntriesV {
    if has_entry(es, v) {
        es.update(entry_pos(es, v), (v, es[entry_pos(es, v)].1.filter(other_than(id))))
    } else {
        es
    }
}

/// `id` no longer listed under any value.
pub open spec fn index_remove_all(es: EntriesV, id: usize) -> EntriesV {
    es.map_values(|e: (PropV, Seq<usize>)| (e.0, e.1.filter(other_than(id))))
}

/// The entry for the value found in the unique entries is the only one for it.
pub proof fn lemma_entry_unique(es: EntriesV, v: PropV, i: int)
    requires
        entries_unique(es),
        entry_at(es, v, i),
    ensures
        has_entry(es, v),
        entry_pos(es, v) == i,
{
    let j = entry_pos(es, v);
    assert(entry_at(es, v, j));
}

/// Adding to unique entries keeps them unique.
pub proof fn lemma_index_ops_unique(es: EntriesV, v: PropV, id: usize)
    requires
        entries_unique(es),
    ensures
        entries_unique(index_add(es, v, id)),
        entries_unique(index_add_once(es, v, id)),
        entries_unique(index_remove(es, v, id)),
        entries_unique(index_remove_all(es, id)),
{
    if has_entry(es, v) {
        let p = entry_pos(es, v);
        assert(entry_at(es, v, p));
    } else {
        let n = es.push((v, seq![id]));
        assert forall|i: int, j: int| 0 <= i < n.len() && 0 <= j < n.len() && i != j implies n[i].0 != n[j].0 by {
            if i == es.len() as int {
                assert(!entry_at(es, v, j));
            } else if j == es.len() as int {
                assert(!entry_at(es, v, i));
            }
        }
    }
}

/// The ids listed under each value after `index_add`.
pub proof fn lemma_ids_after_add(es: EntriesV, v: PropV, id: usize, w: PropV)
    requires
        entries_unique(es),
    ensures
        ids_for(index_add(es, v, id), w) == if w == v { ids_for(es, v).push(id) } else { ids_for(es, w) },
{
    lemma_index_ops_unique(es, v, id);
    let n = index_add(es, v, id);
    if has_entry(es, v) {
        let p = entry_pos(es, v);
        assert(entry_at(es, v, p));
        assert(entry_at(n, v, p));
        lemma_entry_unique(n, v, p);
        if w != v {
            if has_entry(es, w) {
                let q = entry_pos(es, w);
                assert(entry_at(es, w, q));
                assert(entry_at(n, w, q));
                lemma_entry_unique(n, w, q);
            } else {
                assert forall|i: int| !entry_at(n, w, i) by {
                    if entry_at(n, w, i) { assert(entry_at(es, w, i)); }
                }
            }
        }
    } else {
        let p = es.len() as int;
        assert(entry_at(n, v, p));
        lemma_entry_unique(n, v, p);
        if w != v {
            if has_entry(es, w) {
                let q = entry_pos(es, w);
                assert(entry_at(es, w, q));
                assert(entry_at(n, w, q));
                lemma_entry_unique(n, w, q);
            } else {
                assert forall|i: int| !entry_at(n, w, i) by {
                    if entry_at(n, w, i) { assert(entry_at(es, w, i)); }
                }
            }
        }
    }
}

/// The ids listed under each value after `index_remove`.
pub proof fn lemma_ids_after_remove(es: EntriesV, v: PropV, id: usize, w: PropV)
    requires
        entries_unique(es),
    ensures
        ids_for(index_remove(es, v, id), w) == if w == v { ids_for(es, v).filter(other_than(id)) } else { ids_for(es, w) },
{
    lemma_index_ops_unique(es, v, id);
    let n = index_remove(es, v, id);
    if has_entry(es, v) {
        let p = entry_pos(es, v);
        assert(entry_at(es, v, p));
        assert(entry_at(n, v, p));
        lemma_entry_unique(n, v, p);
        if w != v {
            if has_entry(es, w) {
                let q = entry_pos(es, w);
                assert(entry_at(es, w, q));
                assert(entry_at(n, w, q));
                lemma_entry_unique(n, w, q);
            } else {
                assert forall|i: int| !entry_at(n, w, i) by {
                    if entry_at(n, w, i) { assert(entry_at(es, w, i)); }
                }
            }
        }
    } else {
        assert(Seq::<usize>::empty().filter(other_than(id)) =~= Seq::<usize>::empty()) by {
            reveal(Seq::filter);
        }
    }
}

/// The ids listed under each value after `index_remove_all`.
pub proof fn lemma_ids_after_remove_all(es: EntriesV, id: usize, w: PropV)
    requires
        entries_unique(es),
    ensures
        ids_for(index_remove_all(es, id), w) == ids_for(es, w).filter(other_than(id)),
{
    lemma_index_ops_unique(es, w, id);
    let n = index_remove_all(es, id);
    if has_entry(es, w) {
        let q = entry_pos(es, w);
        assert(entry_at(es, w, q));
        assert(entry_at(n, w, q));
        lemma_entry_unique(n, w, q);
    } else {
        assert forall|i: int| !entry_at(n, w, i) by {
            if entry_at(n, w, i) { assert(entry_at(es, w, i)); }
        }
        assert(Seq::<usize>::empty().filter(other_than(id)) =~= Seq::<usize>::empty()) by {
            reveal(Seq::filter);
        }
    }
}

/// The ids of `ids` other than `id`, in order.
fn without_id(ids: &Vec<usize>, id: usize) -> (r: Vec<usize>)
    ensures
        r@ == ids@.filter(other_than(id)),
{
    let mut r: Vec<usize> = Vec::new();
    let mut i: usize = 0;
    while i < ids.len()
        invariant
            i <= ids@.len(),
            r@ == ids@.subrange(0, i as int).filter(other_than(id)),
        decreases ids@.len() - i,
    {
        proof {
            assert(ids@.subrange(0, i as int + 1) =~= ids@.subrange(0, i as int).push(ids@[i as int]));
            ids@.subrange(0, i as int).lemma_filter_push(ids@[i as int], other_than(id));
        }
        if ids[i] != id {
            r.push(ids[i]);
        }
        i = i + 1;
    }
    assert(ids@.subrange(0, ids@.len() as int) =~= ids@);
    r
}

/// The position of the entry for `v`, if there is one.
fn find_entry(es: &IndexEntries, v: &PropertyValue) -> (r: Option<usize>)
    requires
        entries_unique(entries_view(es@)),
    ensures
        match r {
            Some(p) => p < es@.len() && entry_at(entries_view(es@), v@, p as int) && entry_pos(entries_view(es@), v@) == p,
            None => !has_entry(entries_view(es@), v@),
        },
{
    let ghost ev = entries_view(es@);
    let mut i: usize = 0;
    while i < es.len()
        invariant
            i <= es@.len(),
            ev == entries_view(es@),
            entries_unique(ev),
            forall|j: int| 0 <= j < i ==> !entry_at(ev, v@, j),
        decreases es@.len() - i,
    {
        if es[i].0.equals(v) {
            proof { lemma_entry_unique(ev, v@, i as int); }
            return Some(i);
        }
        i = i + 1;
    }
    proof {
        assert forall|j: int| !entry_at(ev, v@, j) by {
            if 0 <= j < es@.len() {
                assert(!entry_at(ev, v@, j));
            }
        }
    }
    None
}

/// Lists `id` under `v` (after the ids already there).
pub fn entries_add(es: &mut IndexEntries, v: &PropertyValue, id: usize)
    requires
        entries_unique(entries_view(old(es)@)),
    ensures
        entries_view(final(es)@) == index_add(entries_view(old(es)@), v@, id),
{
    match find_entry(es, v) {
        Some(p) => {
            let mut ids = crate::graph::copy_ids(&es[p].1);
            ids.push(id);
            let val = es[p].0.copy();
            es.set(p, (val, ids));
            proof {
                let ov = entries_view(old(es)@);
                assert(entry_at(ov, v@, p as int));
                assert(has_entry(ov, v@));
                assert(entries_view(es@) =~= index_add(ov, v@, id));
            }
        },
        None => {
            let mut l: Vec<usize> = Vec::new();
            l.push(id);
            assert(l@ =~= seq![id]);
            es.push((v.copy(), l));
            assert(entries_view(es@) =~= index_add(entries_view(old(es)@), v@, id));
        },
    }
}

/// Lists `id` under `v` unless it is listed there already.
pub fn entries_add_once(es: &mut IndexEntries, v: &PropertyValue, id: usize)
    requires
        entries_unique(entries_view(old(es)@)),
    ensures
        entries_view(final(es)@) == index_add_once(entries_view(old(es)@), v@, id),
{
    match find_entry(es, v) {
        Some(p) => {
            let mut found = false;
            let mut k: usize = 0;
            while k < es[p].1.len()
                invariant
                    p < es@.len(),
                    k <= es@[p as int].1@.len(),
                    found == es@[p as int].1@.subrange(0, k as int).contains(id),
                decreases es@[p as int].1@.len() - k,
            {
                proof {
                    let s = es@[p as int].1@;
                    let t = s.subrange(0, k as int);
                    assert(s.subrange(0, k as int + 1) =~= t.push(s[k as int]));
                    assert(t.push(s[k as int]).contains(id) <==> (t.contains(id) || s[k as int] == id)) by {
                        if t.contains(id) {
                            let q = choose|q: int| 0 <= q < t.len() && t[q] == id;
                            assert(t.push(s[k as int])[q] == id);
                        }
                        if s[k as int] == id {
                            assert(t.push(s[k as int])[t.len() as int] == id);
                        }
                        if t.push(s[k as int]).contains(id) {
                            let q = choose|q: int| 0 <= q < t.len() + 1 && t.push(s[k as int])[q] == id;
                            if q < t.len() { assert(t[q] == id); }
                        }
                    }
                }
                if es[p].1[k] == id {
                    found = true;
                }
                k = k + 1;
            }
            assert(es@[p as int].1@.subrange(0, k as int) =~= es@[p as int].1@);
            if !found {
                entries_add(es, v, id);
            }
        },
        None => {
            entries_add(es, v, id);
        },
    }
}

/// Stops listing `id` under `v`.
pub fn entries_remove(es: &mut IndexEntries, v: &PropertyValue, id: usize)
    requires
        entries_unique(entries_view(old(es)@)),
    ensures
        entries_view(final(es)@) == index_remove(entries_view(old(es)@), v@, id),
{
    match find_entry(es, v) {
        Some(p) => {
            let ids = without_id(&es[p].1, id);
            let val = es[p].0.copy();
            es.set(p, (val, ids));
            assert(entries_view(es@) =~= index_remove(entries_view(old(es)@), v@, id));
        },
        None => {},
    }
}

/// Stops listing `id` under any value.
pub fn entries_remove_all(es: &mut IndexEntries, id: usize)
    ensures
        entries_view(final(es)@) == index_remove_all(entries_view(old(es)@), id),
{
    let ghost ov = entries_view(old(es)@);
    let mut i: usize = 0;
    while i < es.len()
        invariant
            i <= es@.len(),
            es@.len() == old(es)@.len(),
            ov == entries_view(old(es)@),
            forall|j: int| 0 <= j < i ==> #[trigger] entries_view(es@)[j] == (ov[j].0, ov[j].1.filter(other_than(id))),
            forall|j: int| i <= j < es@.len() ==> #[trigger] entries_view(es@)[j] == ov[j],
        decreases es@.len() - i,
    {
        let ids = without_id(&es[i].1, id);
        let val = es[i].0.copy();
        let ghost prev = es@;
        assert(entries_view(prev)[i as int] == ov[i as int]);
        es.set(i, (val, ids));
        proof {
            assert forall|j: int| 0 <= j < es@.len() && j != i implies #[trigger] entries_view(es@)[j] == entries_view(prev)[j] by {
                assert(es@[j] == prev[j]);
            }
            assert(entries_view(es@)[i as int] == (ov[i as int].0, ov[i as int].1.filter(other_than(id))));
        }
        i = i + 1;
    }
    assert(entries_view(es@) =~= index_remove_all(ov, id));
}

/// The ids listed under `v`.
pub fn entries_lookup(es: &IndexEntries, v: &PropertyValue) -> (r: Vec<usize>)
    requires
        entries_unique(entries_view(es@)),
    ensures
        r@ == ids_for(entries_view(es@), v@),
{
    match find_entry(es, v) {
        Some(p) => es[p].1.clone(),
        None => Vec::new(),
    }
}

impl IndexMap {
    /// The entries, whatever the kind.
    pub open spec fn entries(&self) -> EntriesV {
        match self {
            IndexMap::Hash(es) => entries_view(es@),
            IndexMap::BTree(es) => entries_view(es@),
        }
    }

    pub open spec fn kind(&self) -> IndexType {
        match self {
            IndexMap::Hash(_) => IndexType::Hash,
            IndexMap::BTree(_) => IndexType::BTree,
        }
    }

    /// An empty index of the given kind.
    pub fn empty(kind: IndexType) -> (r: IndexMap)
        ensures
            r.entries() == Seq::<(PropV, Seq<usize>)>::empty(),
            r.kind() == kind,
    {
        match kind {
            IndexType::Hash => {
                let r = IndexMap::Hash(Vec::new());
                assert(r.entries() =~= Seq::<(PropV, Seq<usize>)>::empty());
                r
            },
            IndexType::BTree => {
                let r = IndexMap::BTree(Vec::new());
                assert(r.entries() =~= Seq::<(PropV, Seq<usize>)>::empty());
                r
            },
        }
    }

    pub fn add(&mut self, v: &PropertyValue, id: usize)
        requires
            entries_unique(old(self).entries()),
        ensures
            final(self).entries() == index_add(old(self).entries(), v@, id),
            final(self).kind() == old(self).kind(),
    {
        match self {
            IndexMap::Hash(es) => entries_add(es, v, id),
            IndexMap::BTree(es) => entries_add(es, v, id),
        }
    }

    pub fn add_once(&mut self, v: &PropertyValue, id: usize)
        requires
            entries_unique(old(self).entries()),
        ensures
            final(self).entries() == index_add_once(old(self).entries(), v@, id),
            final(self).kind() == old(self).kind(),
    {
        match self {
            IndexMap::Hash(es) => entries_add_once(es, v, id),
            IndexMap::BTree(es) => entries_add_once(es, v, id),
        }
    }

    pub fn remove(&mut self, v: &PropertyValue, id: usize)
        requires
            entries_unique(old(self).entries()),
        ensures
            final(self).entries() == index_remove(old(self).entries(), v@, id),
            final(self).kind() == old(self).kind(),
    {
        match self {
            IndexMap::Hash(es) => entries_remove(es, v, id),
            IndexMap::BTree(es) => entries_remove(es, v, id),
        }
    }

    pub fn remove_all(&mut self, id: usize)
        ensures
            final(self).entries() == index_remove_all(old(self).entries(), id),
            final(self).kind() == old(self).kind(),
    {
        match self {
            IndexMap::Hash(es) => entries_remove_all(es, id),
            IndexMap::BTree(es) => entries_remove_all(es, id),
        }
    }

    pub fn lookup(&self, v: &PropertyValue) -> (r: Vec<usize>)
        requires
            entries_unique(self.entries()),
        ensures
            r@ == ids_for(self.entries(), v@),
    {
        match self {
            IndexMap::Hash(es) => entries_lookup(es, v),
            IndexMap::BTree(es) => entries_lookup(es, v),
        }
    }
}

/// An entry of the write-ahead log: one change to the graph, enough to redo it.
#[derive(Debug)]
pub enum WalEntry {
    AddLabel { label: String },
    AddNode { id: String, label: usize, properties: PropertyMap },
    AddEdge { id: String, start: usize, end: usize, labels: Vec<usize>, properties: PropertyMap },
    CreateIndex { label: usize, property: String, index_type: IndexType },
    SetNodeProperty { node_id: usize, key: String, value: PropertyValue },
    DeleteNode { node_id: usize },
    DeleteEdge { edge_id: usize },
    RemoveNodeProperty { node_id: usize, key: String },
    RemoveNodeLabel { node_id: usize, label_id: usize },
    DropIndex { label: usize, property: String },
}

/// The mathematical form of a log entry.
pub enum WalEntryV {
    AddLabel { label: Seq<char> },
    AddNode { id: Seq<char>, label: usize, properties: Map<Seq<char>, PropV> },
    AddEdge { id: Seq<char>, start: usize, end: usize, labels: Seq<usize>, properties: Map<Seq<char>, PropV> },
    CreateIndex { label: usize, property: Seq<char>, index_type: IndexType },
    SetNodeProperty { node_id: usize, key: Seq<char>, value: PropV },
    DeleteNode { node_id: usize },
    DeleteEdge { edge_id: usize },
    RemoveNodeProperty { node_id: usize, key: Seq<char> },
    RemoveNodeLabel { node_id: usize, label_id: usize },
    DropIndex { label: usize, property: Seq<char> },
}

impl View for WalEntry {
    type V = WalEntryV;

    open spec fn view(&self) -> WalEntryV {
        match self {
            WalEntry::AddLabel { label } => WalEntryV::AddLabel { label: label@ },
            WalEntry::AddNode { id, label, properties } => WalEntryV::AddNode { id: id@, label: *label, properties: properties@ },
            WalEntry::AddEdge { id, start, end, labels, properties } =>
                WalEntryV::AddEdge { id: id@, start: *start, end: *end, labels: labels@, properties: properties@ },
            WalEntry::CreateIndex { label, property, index_type } =>
                WalEntryV::CreateIndex { label: *label, property: property@, index_type: *index_type },
            WalEntry::SetNodeProperty { node_id, key, value } => WalEntryV::SetNodeProperty { node_id: *node_id, key: key@, value: value@ },
            WalEntry::DeleteNode { node_id } => WalEntryV::DeleteNode { node_id: *node_id },
            WalEntry::DeleteEdge { edge_id } => WalEntryV::DeleteEdge { edge_id: *edge_id },
            WalEntry::RemoveNodeProperty { node_id, key } => WalEntryV::RemoveNodeProperty { node_id: *node_id, key: key@ },
            WalEntry::RemoveNodeLabel { node_id, label_id } => WalEntryV::RemoveNodeLabel { node_id: *node_id, label_id: *label_id },
            WalEntry::DropIndex { label, property } => WalEntryV::DropIndex { label: *label, property: property@ },
        }
    }
}

pub open spec fn wal_view(es: Seq<WalEntry>) -> Seq<WalEntryV> {
    es.map_values(|e: WalEntry| e@)
}

} // verus!
