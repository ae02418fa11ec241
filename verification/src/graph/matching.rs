use vstd::prelude::*;
use crate::graph::{Graph, ids_contain, indices_view};
use crate::graph::element::{ElemV, GraphElement};
use crate::graph::model::{reader, seen_at, GraphV, gv_wf, has_index, index_pos, index_at, index_ok, node_indexed};
use crate::graph::result_set::{ResultSet, Row};
use crate::graph::types::{ids_for};
use crate::parser::{NodePattern, NodePatternV, RelPattern, RelPatternV, steps_view};
use crate::planner::{first_indexed, PlanNode, plan_wf};
use crate::parser::names_view;
use crate::property::{PropV, PropertyMap};
use crate::string_pool::{interned_at, position_of};

verus! {

/// The id of the label name in the graph, if it is known.
pub open spec fn label_id_of(g: GraphV, name: Seq<char>) -> Option<usize> {
    if g.labels.contains(name) { Some(position_of(g.labels, name) as usize) } else { None }
}

/// Every property of the pattern is held, with an equal value.
pub open spec fn props_match(held: Map<Seq<char>, PropV>, wanted: Map<Seq<char>, PropV>) -> bool {
    forall|k: Seq<char>| #[trigger] wanted.contains_key(k) ==> held.contains_key(k) && held[k] == wanted[k]
}

/// Node `id` exists, is live, is seen by transaction `t` (see `seen_at`), has the pattern's label
/// (which the graph must know) and holds the pattern's properties.
pub open spec fn node_matches_at(g: GraphV, id: int, p: NodePatternV, t: u64) -> bool {
    &&& 0 <= id < g.nodes.len()
    &&& !g.nodes[id].deleted
    &&& seen_at(g.nodes[id].created_by, g.nodes[id].deleted_by, t)
    &&& (p.label matches Some(l) ==> (label_id_of(g, l) matches Some(lid) && g.nodes[id].labels.contains(lid)))
    &&& props_match(g.nodes[id].properties, p.properties)
}

/// Node `id` matches the pattern for a lookup: as the running transaction sees it (see
/// `reader`).
pub open spec fn node_matches_spec(g: GraphV, id: int, p: NodePatternV) -> bool {
    node_matches_at(g, id, p, reader(g.tx))
}

/// Node `id` matches the pattern as the end of a relationship: whatever transaction created it,
/// unless its deletion was recorded.
pub open spec fn target_matches(g: GraphV, id: int, p: NodePatternV) -> bool {
    node_matches_at(g, id, p, u64::MAX)
}

/// Edge `id` exists, is live, has the pattern's label (which the graph must know) and holds
/// the pattern's properties.
pub open spec fn edge_matches_spec(g: GraphV, id: int, p: RelPatternV) -> bool {
    &&& 0 <= id < g.edges.len()
    &&& !g.edges[id].deleted
    &&& (p.label matches Some(l) ==> (label_id_of(g, l) matches Some(lid) && g.edges[id].labels.contains(lid)))
    &&& props_match(g.edges[id].properties, p.properties)
}

/// The node a row binds the variable to, if it binds it to a node.
pub open spec fn bound_node(row: Map<Seq<char>, ElemV>, var: Option<Seq<char>>) -> Option<usize> {
    match var {
        Some(v) => if row.contains_key(v) && row[v] is Node { Some(row[v]->Node_0) } else { None },
        None => None,
    }
}

/// The edge a row binds the variable to, if it binds it to an edge.
pub open spec fn bound_edge(row: Map<Seq<char>, ElemV>, var: Option<Seq<char>>) -> Option<usize> {
    match var {
        Some(v) => if row.contains_key(v) && row[v] is Edge { Some(row[v]->Edge_0) } else { None },
        None => None,
    }
}

/// The ids `0..n`.
pub open spec fn all_ids(n: nat) -> Seq<usize> {
    Seq::new(n, |i: int| i as usize)
}

pub open spec fn matching_node(g: GraphV, p: NodePatternV) -> spec_fn(usize) -> bool {
    |i: usize| node_matches_spec(g, i as int, p)
}

/// The nodes that match the pattern, in id order.
pub open spec fn scan_nodes(g: GraphV, p: NodePatternV) -> Seq<usize> {
    all_ids(g.nodes.len()).filter(matching_node(g, p))
}

/// The property (and value) of the pattern through whose index its nodes are looked up, if any:
/// the first property, in increasing order of names, that has an index for the pattern's label.
pub open spec fn index_choice(g: GraphV, p: NodePattern) -> Option<(Seq<char>, PropV)> {
    match p@.label {
        Some(l) => match label_id_of(g, l) {
            Some(lid) => first_indexed(p.properties.ordered(), g.indices, lid),
            None => None,
        },
        None => None,
    }
}

/// The nodes listed in the index for the pattern's label and `prop` under `v`.
pub open spec fn index_list(g: GraphV, label: Seq<char>, prop: Seq<char>, v: PropV) -> Seq<usize> {
    match label_id_of(g, label) {
        Some(lid) => if has_index(g.indices, lid, prop) { ids_for(g.indices[index_pos(g.indices, lid, prop)].entries, v) } else { Seq::empty() },
        None => Seq::empty(),
    }
}

/// The nodes `find_nodes` gives for a pattern in a row: the node the row binds the pattern's
/// variable to (if it matches); else the matching nodes listed by the chosen index, in the
/// index's order; else every matching node, in id order.
pub open spec fn find_nodes_spec(g: GraphV, p: NodePattern, row: Map<Seq<char>, ElemV>) -> Seq<usize> {
    match bound_node(row, p@.variable) {
        Some(id) => if node_matches_spec(g, id as int, p@) { seq![id] } else { Seq::empty() },
        None => match index_choice(g, p) {
            Some((k, v)) => index_list(g, p@.label.unwrap(), k, v).filter(matching_node(g, p@)),
            None => scan_nodes(g, p@),
        },
    }
}

impl Graph {
    /// The id of a label name, if the graph knows it.
    pub fn label_id(&self, name: &str) -> (r: Option<usize>)
        requires
            self.wf(),
        ensures
            r == label_id_of(self@, name@),
    {
        match self.labels.get(name) {
            Some(id) => {
                proof {
                    self.labels.lemma_unique();
                    let j = position_of(self@.labels, name@);
                    assert(interned_at(self@.labels, name@, j));
                    assert(interned_at(self@.labels, name@, id as int));
                }
                Some(id)
            },
            None => None,
        }
    }

    /// The transaction id lookups read at (see `reader`).
    pub fn reading_txid(&self) -> (r: u64)
        ensures
            r == reader(self@.tx),
    {
        match self.tx {
            Some(t) => t,
            None => u64::MAX,
        }
    }

    /// Node `node_id` matches the pattern as transaction `txid` sees it (see `node_matches_at`).
    pub fn node_matches(&self, node_id: usize, pattern: &NodePattern, txid: u64) -> (r: bool)
        requires
            self.wf(),
            pattern.properties.wf(),
        ensures
            r == node_matches_at(self@, node_id as int, pattern@, txid),
    {
        if node_id >= self.nodes.len() {
            return false;
        }
        let node = &self.nodes[node_id];
        if node.deleted || node.created_by > txid {
            return false;
        }
        match node.deleted_by {
            Some(d) => {
                if d <= txid {
                    return false;
                }
            },
            None => {},
        }
        match &pattern.label {
            Some(l) => match self.label_id(l.as_str()) {
                Some(lid) => {
                    if !ids_contain(&node.labels, lid) {
                        return false;
                    }
                },
                None => {
                    return false;
                },
            },
            None => {},
        }
        proof { assert(node.properties.wf()); }
        node.properties.contains_all(&pattern.properties)
    }

    /// Edge `edge_id` matches the pattern (see `edge_matches_spec`).
    pub fn edge_matches(&self, edge_id: usize, pattern: &RelPattern) -> (r: bool)
        requires
            self.wf(),
            pattern.properties.wf(),
        ensures
            r == edge_matches_spec(self@, edge_id as int, pattern@),
    {
        if edge_id >= self.edges.len() {
            return false;
        }
        let edge = &self.edges[edge_id];
        if edge.deleted {
            return false;
        }
        match &pattern.label {
            Some(l) => match self.label_id(l.as_str()) {
                Some(lid) => {
                    if !ids_contain(&edge.labels, lid) {
                        return false;
                    }
                },
                None => {
                    return false;
                },
            },
            None => {},
        }
        proof { assert(edge.properties.wf()); }
        edge.properties.contains_all(&pattern.properties)
    }
}

/// The elements of `s` that `pred` keeps, growing one element at a time.
pub proof fn lemma_filter_step(s: Seq<usize>, i: int, pred: spec_fn(usize) -> bool)
    requires
        0 <= i < s.len(),
    ensures
        s.subrange(0, i + 1).filter(pred) == if pred(s[i]) { s.subrange(0, i).filter(pred).push(s[i]) } else { s.subrange(0, i).filter(pred) },
{
    assert(s.subrange(0, i + 1) =~= s.subrange(0, i).push(s[i]));
    s.subrange(0, i).lemma_filter_push(s[i], pred);
}

impl Graph {
    /// The nodes matching `pattern` for row `row_idx` of `in_res` (see `find_nodes_spec`).
    pub fn find_nodes(&self, pattern: &NodePattern, in_res: &ResultSet, row_idx: usize) -> (r: Vec<usize>)
        requires
            self.wf(),
            pattern.properties.wf(),
            in_res.wf(),
            row_idx < in_res@.rows.len(),
        ensures
            r@ == find_nodes_spec(self@, *pattern, in_res@.rows[row_idx as int]),
    {
        let ghost row = in_res@.rows[row_idx as int];
        match &pattern.variable {
            Some(var) => match in_res.get(row_idx, var.as_str()) {
                Some(GraphElement::Node(id)) => {
                    let id = *id;
                    if self.node_matches(id, pattern, self.reading_txid()) {
                        return vec![id];
                    } else {
                        return Vec::new();
                    }
                },
                _ => {},
            },
            None => {},
        }
        assert(bound_node(row, pattern@.variable) is None);
        match &pattern.label {
            Some(label_name) => match self.label_id(label_name.as_str()) {
                Some(lid) => match crate::planner::first_indexed_exec(&pattern.properties, &self.indices, lid) {
                    Some((k, v)) => {
                        proof {
                            crate::planner::lemma_first_indexed_in(pattern.properties.ordered(), self@.indices, lid);
                        }
                        let p = match self.find_index(lid, k.as_str()) {
                            Some(p) => p,
                            None => { return Vec::new(); },
                        };
                        proof { assert(index_ok(self@, self@.indices[p as int])); }
                        let list = self.indices[p].map.lookup(&v);
                        assert(list@ == index_list(self@, label_name@, k@, v@));
                        let ghost pred = matching_node(self@, pattern@);
                        let mut out: Vec<usize> = Vec::new();
                        let mut i: usize = 0;
                        while i < list.len()
                            invariant
                                self.wf(),
                                pattern.properties.wf(),
                                pred == matching_node(self@, pattern@),
                                i <= list@.len(),
                                out@ == list@.subrange(0, i as int).filter(pred),
                            decreases list@.len() - i,
                        {
                            proof { lemma_filter_step(list@, i as int, pred); }
                            if self.node_matches(list[i], pattern, self.reading_txid()) {
                                out.push(list[i]);
                            }
                            i = i + 1;
                        }
                        assert(list@.subrange(0, i as int) =~= list@);
                        return out;
                    },
                    None => {},
                },
                None => {},
            },
            None => {},
        }
        let ghost pred = matching_node(self@, pattern@);
        let n = self.nodes.len();
        let mut out: Vec<usize> = Vec::new();
        let mut id: usize = 0;
        while id < n
            invariant
                self.wf(),
                pattern.properties.wf(),
                pred == matching_node(self@, pattern@),
                n == self@.nodes.len(),
                id <= n,
                out@ == all_ids(n as nat).subrange(0, id as int).filter(pred),
            decreases n - id,
        {
            proof {
                lemma_filter_step(all_ids(n as nat), id as int, pred);
                assert(all_ids(n as nat)[id as int] == id);
            }
            if self.node_matches(id, pattern, self.reading_txid()) {
                out.push(id);
            }
            id = id + 1;
        }
        assert(all_ids(n as nat).subrange(0, n as int) =~= all_ids(n as nat));
        out
    }
}

/// In a well-formed graph, an index lookup loses no node: when `find_nodes` goes through an index,
/// it yields exactly the nodes that match the pattern, in the index's order (each once, as a
/// well-formed index lists no node twice).
pub proof fn law_index_lookup_complete(g: GraphV, p: NodePattern, row: Map<Seq<char>, ElemV>)
    requires
        gv_wf(g),
        p.properties.wf(),
        bound_node(row, p@.variable) is None,
        index_choice(g, p) is Some,
    ensures
        find_nodes_spec(g, p, row).to_set() == scan_nodes(g, p@).to_set(),
{
    let (k, v) = index_choice(g, p).unwrap();
    let l = p@.label.unwrap();
    let lid = label_id_of(g, l).unwrap();
    crate::planner::lemma_first_indexed_in(p.properties.ordered(), g.indices, lid);
    let i = choose|i: int| 0 <= i < p.properties.ordered().len() && #[trigger] p.properties.ordered()[i] == (k, v);
    p.properties.lemma_ordered();
    assert(p@.properties.contains_key(k) && p@.properties[k] == v);
    let q = index_pos(g.indices, lid, k);
    assert(index_at(g.indices, lid, k, q));
    assert(index_ok(g, g.indices[q]));
    let list = index_list(g, l, k, v);
    let pred = matching_node(g, p@);
    #[allow(deprecated)]
    list.filter_lemma(pred);
    #[allow(deprecated)]
    all_ids(g.nodes.len()).filter_lemma(pred);
    assert forall|x: usize| list.filter(pred).to_set().contains(x) <==> scan_nodes(g, p@).to_set().contains(x) by {
        if list.filter(pred).contains(x) {
            let a = choose|a: int| 0 <= a < list.filter(pred).len() && list.filter(pred)[a] == x;
            assert(pred(list.filter(pred)[a]));
            assert(all_ids(g.nodes.len())[x as int] == x);
        }
        if scan_nodes(g, p@).contains(x) {
            let a = choose|a: int| 0 <= a < scan_nodes(g, p@).len() && scan_nodes(g, p@)[a] == x;
            assert(pred(scan_nodes(g, p@)[a]));
            assert(node_matches_spec(g, x as int, p@));
            assert(node_indexed(g, g.indices[q], x as int));
            assert(g.nodes[x as int].properties.contains_key(k));
            let b = choose|b: int| 0 <= b < list.len() && list[b] == x;
            assert(list.filter(pred).contains(list[b]));
        }
    }
    assert(list.filter(pred).to_set() =~= scan_nodes(g, p@).to_set());
}

// ---------------------------------------------------------------------------------------------
// Following relationships.

/// The row with the variable (if any) bound to `e`.
pub open spec fn bind(row: Map<Seq<char>, ElemV>, var: Option<Seq<char>>, e: ElemV) -> Map<Seq<char>, ElemV> {
    match var {
        Some(v) => row.insert(v, e),
        None => row,
    }
}

/// Following edge `e` out of node `start` for the step: `Some((end, e))` when `e` leaves `start`,
/// agrees with the edge the row binds the relationship's variable to (if any), matches the
/// relationship pattern, and ends at a node that agrees with the node the row binds the target's
/// variable to (if any) and matches the target pattern.
pub open spec fn follow(g: GraphV, start: usize, rp: RelPatternV, tp: NodePatternV, row: Map<Seq<char>, ElemV>, e: usize) -> Option<(usize, usize)> {
    if e < g.edges.len() && g.edges[e as int].start == start
        && !(bound_edge(row, rp.variable) matches Some(b) && b != e)
        && edge_matches_spec(g, e as int, rp)
        && !(bound_node(row, tp.variable) matches Some(b) && g.edges[e as int].end != b)
        && target_matches(g, g.edges[e as int].end as int, tp) {
        Some((g.edges[e as int].end, e))
    } else {
        None
    }
}

/// What following each of the edges gives, in order.
pub open spec fn follow_all(g: GraphV, start: usize, rp: RelPatternV, tp: NodePatternV, row: Map<Seq<char>, ElemV>, es: Seq<usize>) -> Seq<(usize, usize)>
    decreases es.len(),
{
    if es.len() == 0 {
        Seq::empty()
    } else {
        let prev = follow_all(g, start, rp, tp, row, es.drop_last());
        match follow(g, start, rp, tp, row, es.last()) {
            Some(m) => prev.push(m),
            None => prev,
        }
    }
}

/// The (node, edge) pairs reachable from `start` in one step of the pattern, in the order of the
/// start node's edge list.
pub open spec fn find_edges_spec(g: GraphV, start: usize, rp: RelPatternV, tp: NodePatternV, row: Map<Seq<char>, ElemV>) -> Seq<(usize, usize)> {
    if start < g.nodes.len() {
        follow_all(g, start, rp, tp, row, g.nodes[start as int].edges)
    } else {
        Seq::empty()
    }
}

/// `b` appended to `a`, stopping once there are `limit` rows (nothing is appended to `a` when
/// it already has that many).
pub open spec fn limited<T>(a: Seq<T>, b: Seq<T>, limit: Option<usize>) -> Seq<T> {
    match limit {
        None => a + b,
        Some(l) => if a.len() >= l {
            a
        } else if a.len() + b.len() <= l {
            a + b
        } else {
            (a + b).subrange(0, l as int)
        },
    }
}

/// Appending in two limited pieces is appending the whole in one.
pub proof fn lemma_limited_concat<T>(a: Seq<T>, b: Seq<T>, c: Seq<T>, limit: Option<usize>)
    ensures
        limited(limited(a, b, limit), c, limit) == limited(a, b + c, limit),
{
    assert((a + b) + c =~= a + (b + c));
    match limit {
        None => {},
        Some(l) => {
            if a.len() >= l {
            } else if a.len() + b.len() <= l {
            } else {
                assert((a + b).subrange(0, l as int) =~= (a + (b + c)).subrange(0, l as int));
            }
        },
    }
}

/// Appending nothing changes nothing.
pub proof fn lemma_limited_empty<T>(a: Seq<T>, limit: Option<usize>)
    ensures
        limited(a, Seq::<T>::empty(), limit) == a,
{
    assert(a + Seq::<T>::empty() =~= a);
}

/// The rows a depth-first match of the steps from `i` on gives, starting at node `cur` with
/// `row` (all rows, in order, before any limit).
pub open spec fn dfs_rows(g: GraphV, steps: Seq<(RelPatternV, NodePatternV)>, i: nat, cur: usize, row: Map<Seq<char>, ElemV>) -> Seq<Map<Seq<char>, ElemV>>
    decreases steps.len() - i, 2int, 0int, 0int, 0int,
{
    if i >= steps.len() {
        seq![row]
    } else {
        let rp = steps[i as int].0;
        let tp = steps[i as int].1;
        match rp.length {
            Some((mn, mx)) => if !(mn == 1 && mx == Some(1usize)) {
                var_rows(g, steps, i, cur, row, mn, mx, 0, Seq::empty())
            } else {
                dfs_list(g, steps, i, row, find_edges_spec(g, cur, rp, tp, row))
            },
            None => dfs_list(g, steps, i, row, find_edges_spec(g, cur, rp, tp, row)),
        }
    }
}

/// The rows from each (node, edge) pair of step `i`, in order.
pub open spec fn dfs_list(g: GraphV, steps: Seq<(RelPatternV, NodePatternV)>, i: nat, row: Map<Seq<char>, ElemV>, ms: Seq<(usize, usize)>) -> Seq<Map<Seq<char>, ElemV>>
    decreases steps.len() - i, 1int, 0int, 0int, ms.len(),
{
    if i >= steps.len() || ms.len() == 0 {
        Seq::empty()
    } else {
        let (n, e) = ms.last();
        let rp = steps[i as int].0;
        let tp = steps[i as int].1;
        dfs_list(g, steps, i, row, ms.drop_last())
            + dfs_rows(g, steps, i + 1, n, bind(bind(row, rp.variable, ElemV::Edge(e)), tp.variable, ElemV::Node(n)))
    }
}

/// The target of a variable-length step may end at `cur`: it agrees with the node the row binds
/// the target's variable to (if any) and matches the target pattern.
pub open spec fn var_target_ok(g: GraphV, tp: NodePatternV, row: Map<Seq<char>, ElemV>, cur: usize) -> bool {
    &&& !(bound_node(row, tp.variable) matches Some(b) && cur != b)
    &&& target_matches(g, cur as int, tp)
}

/// The rows a variable-length step `i` gives from node `cur`, reached at `depth` over the edges
/// `path`: the rest of the match from here when the depth is within the bounds and the target may
/// end here, then the rows from each further edge out of `cur` not yet on the path (unless the
/// depth is at the upper bound).
pub open spec fn var_rows(g: GraphV, steps: Seq<(RelPatternV, NodePatternV)>, i: nat, cur: usize, row: Map<Seq<char>, ElemV>,
    mn: usize, mx: Option<usize>, depth: nat, path: Seq<usize>) -> Seq<Map<Seq<char>, ElemV>>
    decreases steps.len() - i, 0int, g.edges.len() + 1 - path.len(), 1int, 0int,
{
    if i >= steps.len() {
        Seq::empty()
    } else {
        let rp = steps[i as int].0;
        let tp = steps[i as int].1;
        let here = if depth >= mn && var_target_ok(g, tp, row, cur) {
            dfs_rows(g, steps, i + 1, cur, bind(bind(row, rp.variable, ElemV::EdgeArray(path)), tp.variable, ElemV::Node(cur)))
        } else {
            Seq::empty()
        };
        let more = if mx matches Some(m) && depth >= m {
            Seq::empty()
        } else if cur < g.nodes.len() && path.len() <= g.edges.len() {
            var_list(g, steps, i, cur, row, mn, mx, depth, path, g.nodes[cur as int].edges)
        } else {
            Seq::empty()
        };
        here + more
    }
}

/// Edge `e` extends a variable-length path from `cur`.
pub open spec fn var_step_ok(g: GraphV, rp: RelPatternV, cur: usize, path: Seq<usize>, e: usize) -> bool {
    &&& e < g.edges.len()
    &&& g.edges[e as int].start == cur
    &&& !path.contains(e)
    &&& edge_matches_spec(g, e as int, rp)
}

/// The rows from each of the edges that extend the path, in order.
pub open spec fn var_list(g: GraphV, steps: Seq<(RelPatternV, NodePatternV)>, i: nat, cur: usize, row: Map<Seq<char>, ElemV>,
    mn: usize, mx: Option<usize>, depth: nat, path: Seq<usize>, es: Seq<usize>) -> Seq<Map<Seq<char>, ElemV>>
    decreases steps.len() - i, 0int, g.edges.len() + 1 - path.len(), 0int, es.len(),
{
    if i >= steps.len() || es.len() == 0 || path.len() >= g.edges.len() {
        Seq::empty()
    } else {
        let e = es.last();
        let rp = steps[i as int].0;
        let prev = var_list(g, steps, i, cur, row, mn, mx, depth, path, es.drop_last());
        if var_step_ok(g, rp, cur, path, e) {
            prev + var_rows(g, steps, i, g.edges[e as int].end, row, mn, mx, depth + 1, path.push(e))
        } else {
            prev
        }
    }
}

/// A list of distinct ids below `n` has at most `n` entries.
pub proof fn lemma_distinct_below(s: Seq<usize>, n: nat)
    requires
        s.no_duplicates(),
        forall|i: int| 0 <= i < s.len() ==> (#[trigger] s[i]) < n,
    ensures
        s.len() <= n,
{
    let t = s.map_values(|x: usize| x as int);
    assert forall|a: int, b: int| 0 <= a < t.len() && 0 <= b < t.len() && a != b implies t[a] != t[b] by {
        assert(s[a] != s[b]);
    }
    assert(t.no_duplicates());
    t.unique_seq_to_set();
    vstd::set_lib::lemma_int_range(0, n as int);
    assert(t.to_set().subset_of(vstd::set_lib::set_int_range(0, n as int))) by {
        assert forall|x: int| t.to_set().contains(x) implies vstd::set_lib::set_int_range(0, n as int).contains(x) by {
            let q = choose|q: int| 0 <= q < t.len() && t[q] == x;
            assert(s[q] < n);
        }
    }
    vstd::set_lib::lemma_len_subset(t.to_set(), vstd::set_lib::set_int_range(0, n as int));
}

/// The names bound by any of the rows.
pub open spec fn rows_dom(rs: Seq<Map<Seq<char>, ElemV>>) -> Set<Seq<char>>
    decreases rs.len(),
{
    if rs.len() == 0 {
        Set::empty()
    } else {
        rows_dom(rs.drop_last()).union(rs.last().dom())
    }
}

/// The names one row binds.
pub proof fn lemma_rows_dom_single(m: Map<Seq<char>, ElemV>)
    ensures
        rows_dom(seq![m]) == m.dom(),
{
    assert(seq![m].drop_last() =~= Seq::<Map<Seq<char>, ElemV>>::empty());
    assert(rows_dom(Seq::<Map<Seq<char>, ElemV>>::empty()) == Set::<Seq<char>>::empty());
    assert(Set::<Seq<char>>::empty().union(m.dom()) =~= m.dom());
}

/// The names bound by the rows of two lists.
pub proof fn lemma_rows_dom_concat(a: Seq<Map<Seq<char>, ElemV>>, b: Seq<Map<Seq<char>, ElemV>>)
    ensures
        rows_dom(a + b) == rows_dom(a).union(rows_dom(b)),
    decreases b.len(),
{
    if b.len() == 0 {
        assert(a + b =~= a);
        assert(rows_dom(b) == Set::<Seq<char>>::empty());
        assert(rows_dom(a).union(Set::empty()) =~= rows_dom(a));
    } else {
        lemma_rows_dom_concat(a, b.drop_last());
        assert((a + b).drop_last() =~= a + b.drop_last());
        assert((a + b).last() == b.last());
        assert(rows_dom(a + b) =~= rows_dom(a).union(rows_dom(b)));
    }
}

/// `new` is `old` with `add` appended under the limit, and its columns are those of `old` and the
/// names the appended rows bind.
pub open spec fn appended(old: crate::graph::result_set::ResultV, new: crate::graph::result_set::ResultV,
    add: Seq<Map<Seq<char>, ElemV>>, limit: Option<usize>) -> bool {
    &&& new.rows == limited(old.rows, add, limit)
    &&& new.columns.to_set() == old.columns.to_set().union(rows_dom(new.rows.subrange(old.rows.len() as int, new.rows.len() as int)))
}

/// Appending nothing.
pub proof fn lemma_appended_none(r: crate::graph::result_set::ResultV, limit: Option<usize>)
    ensures
        appended(r, r, Seq::empty(), limit),
{
    lemma_limited_empty(r.rows, limit);
    assert(r.rows.subrange(r.rows.len() as int, r.rows.len() as int) =~= Seq::<Map<Seq<char>, ElemV>>::empty());
    assert(rows_dom(Seq::<Map<Seq<char>, ElemV>>::empty()) == Set::<Seq<char>>::empty());
    assert(r.columns.to_set().union(Set::empty()) =~= r.columns.to_set());
}

/// Two appends one after the other.
pub proof fn lemma_appended_trans(a: crate::graph::result_set::ResultV, b: crate::graph::result_set::ResultV,
    c: crate::graph::result_set::ResultV, x: Seq<Map<Seq<char>, ElemV>>, y: Seq<Map<Seq<char>, ElemV>>, limit: Option<usize>)
    requires
        appended(a, b, x, limit),
        appended(b, c, y, limit),
    ensures
        appended(a, c, x + y, limit),
{
    lemma_limited_concat(a.rows, x, y, limit);
    let al = a.rows.len() as int;
    let bl = b.rows.len() as int;
    let cl = c.rows.len() as int;
    assert(b.rows.subrange(0, al) == a.rows) by {
        match limit {
            None => { assert(b.rows.subrange(0, al) =~= a.rows); },
            Some(l) => { assert(b.rows.subrange(0, al) =~= a.rows); },
        }
    }
    assert(c.rows.subrange(0, bl) == b.rows) by {
        assert(c.rows.subrange(0, bl) =~= b.rows);
    }
    assert(al <= bl <= cl);
    assert(c.rows.subrange(al, cl) =~= b.rows.subrange(al, bl) + c.rows.subrange(bl, cl));
    lemma_rows_dom_concat(b.rows.subrange(al, bl), c.rows.subrange(bl, cl));
    assert(c.columns.to_set() =~= a.columns.to_set().union(rows_dom(c.rows.subrange(al, cl))));
}

/// Appending once the limit is reached appends nothing.
pub proof fn lemma_appended_at_limit(a: crate::graph::result_set::ResultV, b: crate::graph::result_set::ResultV,
    x: Seq<Map<Seq<char>, ElemV>>, y: Seq<Map<Seq<char>, ElemV>>, limit: Option<usize>)
    requires
        appended(a, b, x, limit),
        limit matches Some(l) && b.rows.len() >= l,
    ensures
        appended(a, b, x + y, limit),
{
    lemma_limited_concat(a.rows, x, y, limit);
}

/// A copy of the row with the variable (if any) bound to `e`.
pub fn bind_row(row: &Row, var: &Option<String>, e: GraphElement) -> (r: Row)
    requires
        row.wf(),
        e@ != ElemV::Null,
    ensures
        r.wf(),
        r@ == bind(row@, crate::parser::opt_str_view(*var), e@),
{
    let mut r = row.copy();
    match var {
        Some(v) => r.set(v.as_str(), e),
        None => {},
    }
    r
}

/// The node the row binds the variable to, if it binds it to a node.
pub fn row_node(row: &Row, var: &Option<String>) -> (r: Option<usize>)
    requires
        row.wf(),
    ensures
        r == bound_node(row@, crate::parser::opt_str_view(*var)),
{
    match var {
        Some(v) => match row.get(v.as_str()) {
            Some(GraphElement::Node(id)) => Some(*id),
            _ => None,
        },
        None => None,
    }
}

/// The edge the row binds the variable to, if it binds it to an edge.
pub fn row_edge(row: &Row, var: &Option<String>) -> (r: Option<usize>)
    requires
        row.wf(),
    ensures
        r == bound_edge(row@, crate::parser::opt_str_view(*var)),
{
    match var {
        Some(v) => match row.get(v.as_str()) {
            Some(GraphElement::Edge(id)) => Some(*id),
            _ => None,
        },
        None => None,
    }
}

impl Graph {
    /// The (node, edge) pairs one step of the pattern reaches from `start_id` (see `find_edges_spec`).
    pub fn find_edges_and_nodes(&self, start_id: usize, rel_pattern: &RelPattern, target_node_pattern: &NodePattern, row: &Row) -> (r: Vec<(usize, usize)>)
        requires
            self.wf(),
            rel_pattern.properties.wf(),
            target_node_pattern.properties.wf(),
            row.wf(),
        ensures
            r@ == find_edges_spec(self@, start_id, rel_pattern@, target_node_pattern@, row@),
    {
        let mut matches: Vec<(usize, usize)> = Vec::new();
        if start_id >= self.nodes.len() {
            return matches;
        }
        let target_bound = row_node(row, &target_node_pattern.variable);
        let rel_bound = row_edge(row, &rel_pattern.variable);
        let es = &self.nodes[start_id].edges;
        let ghost g = self@;
        let mut i: usize = 0;
        while i < es.len()
            invariant
                self.wf(),
                g == self@,
                rel_pattern.properties.wf(),
                target_node_pattern.properties.wf(),
                start_id < g.nodes.len(),
                es@ == g.nodes[start_id as int].edges,
                target_bound == bound_node(row@, target_node_pattern@.variable),
                rel_bound == bound_edge(row@, rel_pattern@.variable),
                i <= es@.len(),
                matches@ == follow_all(g, start_id, rel_pattern@, target_node_pattern@, row@, es@.subrange(0, i as int)),
            decreases es@.len() - i,
        {
            let edge_id = es[i];
            proof {
                assert(es@.subrange(0, i as int + 1).drop_last() =~= es@.subrange(0, i as int));
                assert(es@.subrange(0, i as int + 1).last() == edge_id);
                assert(edge_id < g.edges.len());
            }
            let e = &self.edges[edge_id];
            if e.start == start_id {
                let rel_ok = match rel_bound {
                    Some(b) => b == edge_id,
                    None => true,
                };
                if rel_ok && self.edge_matches(edge_id, rel_pattern) {
                    let end = e.end;
                    let target_ok = match target_bound {
                        Some(b) => end == b,
                        None => true,
                    };
                    if target_ok && self.node_matches(end, target_node_pattern, u64::MAX) {
                        matches.push((end, edge_id));
                    }
                }
            }
            i = i + 1;
        }
        assert(es@.subrange(0, i as int) =~= es@);
        matches
    }

    /// Matches the steps from `edge_idx` on, depth first, from node `cur` with `row`, appending
    /// each complete match to `out` until `out` has `limit` rows (see `dfs_rows`).
    pub fn match_edges_recursive(
        &self,
        edges: &Vec<(RelPattern, NodePattern)>,
        edge_idx: usize,
        cur: usize,
        row: &Row,
        out: &mut ResultSet,
        limit: Option<usize>,
    )
        requires
            self.wf(),
            crate::parser::grammar::steps_wf(edges@),
            row.wf(),
            old(out).wf(),
            edge_idx <= edges@.len(),
        ensures
            final(out).wf(),
            appended(old(out)@, final(out)@, dfs_rows(self@, steps_view(edges@), edge_idx as nat, cur, row@), limit),
        decreases edges@.len() - edge_idx, 2int, 0int, 0int, 0int,
    {
        let ghost g = self@;
        let ghost start = out@;
        match limit {
            Some(l) => {
                if out.rows() >= l {
                    proof {
                        lemma_appended_none(start, limit);
                        lemma_appended_at_limit(start, start, Seq::empty(), dfs_rows(g, steps_view(edges@), edge_idx as nat, cur, row@), limit);
                        assert(Seq::<Map<Seq<char>, ElemV>>::empty() + dfs_rows(g, steps_view(edges@), edge_idx as nat, cur, row@) =~= dfs_rows(g, steps_view(edges@), edge_idx as nat, cur, row@));
                    }
                    return;
                }
            },
            None => {},
        }
        if edge_idx >= edges.len() {
            out.push_row(row);
            proof {
                assert(start.rows + seq![row@] =~= out@.rows);
                assert(dfs_rows(g, steps_view(edges@), edge_idx as nat, cur, row@) == seq![row@]);
                assert(out@.rows.subrange(start.rows.len() as int, out@.rows.len() as int) =~= seq![row@]);
                lemma_rows_dom_single(row@);
            }
            return;
        }
        assert(edges@[edge_idx as int].0.properties.wf() && edges@[edge_idx as int].1.properties.wf());
        let rel_pattern = &edges[edge_idx].0;
        let target = &edges[edge_idx].1;
        match rel_pattern.length {
            Some((mn, mx)) => {
                let unit = mn == 1 && match mx { Some(m) => m == 1, None => false };
                if !unit {
                    let path: Vec<usize> = Vec::new();
                    proof { assert(path@ =~= Seq::<usize>::empty()); }
                    self.match_var_length_edges(edges, edge_idx, cur, row, out, mn, mx, 0, &path, limit);
                    return;
                }
            },
            None => {},
        }
        let matches = self.find_edges_and_nodes(cur, rel_pattern, target, row);
        let steps_len = edges.len();
        let ghost ms = matches@;
        proof { lemma_appended_none(start, limit); }
        assert(dfs_rows(g, steps_view(edges@), edge_idx as nat, cur, row@) == dfs_list(g, steps_view(edges@), edge_idx as nat, row@, ms));
        let mut j: usize = 0;
        while j < matches.len()
            invariant
                self.wf(),
                g == self@,
                crate::parser::grammar::steps_wf(edges@),
                row.wf(),
                out.wf(),
                edge_idx < edges@.len(),
                steps_len == edges@.len(),
                rel_pattern == &edges@[edge_idx as int].0,
                target == &edges@[edge_idx as int].1,
                ms == matches@,
                start == old(out)@,
                dfs_rows(g, steps_view(edges@), edge_idx as nat, cur, row@) == dfs_list(g, steps_view(edges@), edge_idx as nat, row@, ms),
                j <= ms.len(),
                appended(start, out@, dfs_list(g, steps_view(edges@), edge_idx as nat, row@, ms.subrange(0, j as int)), limit),
            decreases ms.len() - j,
        {
            let (n, e) = matches[j];
            let r1 = bind_row(row, &rel_pattern.variable, GraphElement::Edge(e));
            let r2 = bind_row(&r1, &target.variable, GraphElement::Node(n));
            let ghost mid = out@;
            self.match_edges_recursive(edges, edge_idx + 1, n, &r2, out, limit);
            proof {
                let pre = ms.subrange(0, j as int);
                let pre1 = ms.subrange(0, j as int + 1);
                assert(pre1.drop_last() =~= pre);
                assert(pre1.last() == (n, e));
                let here = dfs_rows(g, steps_view(edges@), (edge_idx + 1) as nat, n, r2@);
                assert(dfs_list(g, steps_view(edges@), edge_idx as nat, row@, pre1) == dfs_list(g, steps_view(edges@), edge_idx as nat, row@, pre) + here);
                lemma_appended_trans(start, mid, out@, dfs_list(g, steps_view(edges@), edge_idx as nat, row@, pre), here, limit);
            }
            match limit {
                Some(l) => {
                    if out.rows() >= l {
                        proof {
                            let pre1 = ms.subrange(0, j as int + 1);
                            let rest = ms.subrange(j as int + 1, ms.len() as int);
                            lemma_dfs_list_split(g, steps_view(edges@), edge_idx as nat, row@, pre1, rest);
                            assert(pre1 + rest =~= ms);
                            lemma_appended_at_limit(start, out@, dfs_list(g, steps_view(edges@), edge_idx as nat, row@, pre1),
                                dfs_list(g, steps_view(edges@), edge_idx as nat, row@, rest), limit);
                            assert(dfs_rows(g, steps_view(edges@), edge_idx as nat, cur, row@) == dfs_list(g, steps_view(edges@), edge_idx as nat, row@, ms));
                        }
                        return;
                    }
                },
                None => {},
            }
            j = j + 1;
        }
        proof {
            assert(ms.subrange(0, j as int) =~= ms);
            assert(dfs_rows(g, steps_view(edges@), edge_idx as nat, cur, row@) == dfs_list(g, steps_view(edges@), edge_idx as nat, row@, ms));
        }
    }

    /// Matches a variable-length step (see `var_rows`).
    pub fn match_var_length_edges(
        &self,
        edges: &Vec<(RelPattern, NodePattern)>,
        edge_idx: usize,
        cur: usize,
        row: &Row,
        out: &mut ResultSet,
        min_len: usize,
        max_len: Option<usize>,
        depth: usize,
        path: &Vec<usize>,
        limit: Option<usize>,
    )
        requires
            self.wf(),
            crate::parser::grammar::steps_wf(edges@),
            row.wf(),
            old(out).wf(),
            edge_idx < edges@.len(),
            depth == path@.len(),
            path@.no_duplicates(),
            forall|i: int| 0 <= i < path@.len() ==> (#[trigger] path@[i]) < self@.edges.len(),
        ensures
            final(out).wf(),
            appended(old(out)@, final(out)@, var_rows(self@, steps_view(edges@), edge_idx as nat, cur, row@, min_len, max_len, depth as nat, path@), limit),
        decreases edges@.len() - edge_idx, 0int, self@.edges.len() + 1 - path@.len(), 1int, 0int,
    {
        let ghost g = self@;
        let ghost start = out@;
        let ghost full = var_rows(g, steps_view(edges@), edge_idx as nat, cur, row@, min_len, max_len, depth as nat, path@);
        let steps_len = edges.len();
        let edge_total = self.edges.len();
        proof { lemma_distinct_below(path@, g.edges.len()); }
        match limit {
            Some(l) => {
                if out.rows() >= l {
                    proof {
                        lemma_appended_none(start, limit);
                        lemma_appended_at_limit(start, start, Seq::empty(), full, limit);
                        assert(Seq::<Map<Seq<char>, ElemV>>::empty() + full =~= full);
                    }
                    return;
                }
            },
            None => {},
        }
        assert(edges@[edge_idx as int].0.properties.wf() && edges@[edge_idx as int].1.properties.wf());
        let rel_pattern = &edges[edge_idx].0;
        let target = &edges[edge_idx].1;
        let ghost here = if depth >= min_len && var_target_ok(g, target@, row@, cur) {
            dfs_rows(g, steps_view(edges@), (edge_idx + 1) as nat, cur, bind(bind(row@, rel_pattern@.variable, ElemV::EdgeArray(path@)), target@.variable, ElemV::Node(cur)))
        } else {
            Seq::empty()
        };
        proof { lemma_appended_none(start, limit); }
        if depth >= min_len {
            let target_ok = match row_node(row, &target.variable) {
                Some(b) => cur == b,
                None => true,
            };
            if target_ok && self.node_matches(cur, target, u64::MAX) {
                let r1 = bind_row(row, &rel_pattern.variable, GraphElement::EdgeArray(crate::graph::copy_ids(path)));
                let r2 = bind_row(&r1, &target.variable, GraphElement::Node(cur));
                self.match_edges_recursive(edges, edge_idx + 1, cur, &r2, out, limit);
            }
        }
        assert(appended(start, out@, here, limit));
        let ghost after_here = out@;
        match max_len {
            Some(m) => {
                if depth >= m {
                    proof { assert(full == here + Seq::<Map<Seq<char>, ElemV>>::empty()); assert(here + Seq::<Map<Seq<char>, ElemV>>::empty() =~= here); }
                    return;
                }
            },
            None => {},
        }
        if cur >= self.nodes.len() {
            proof { assert(full == here + Seq::<Map<Seq<char>, ElemV>>::empty()); assert(here + Seq::<Map<Seq<char>, ElemV>>::empty() =~= here); }
            return;
        }
        let es = &self.nodes[cur].edges;
        proof { lemma_appended_none(after_here, limit); }
        assert(full == here + var_list(g, steps_view(edges@), edge_idx as nat, cur, row@, min_len, max_len, depth as nat, path@, es@));
        let mut j: usize = 0;
        while j < es.len()
            invariant
                self.wf(),
                g == self@,
                crate::parser::grammar::steps_wf(edges@),
                row.wf(),
                out.wf(),
                edge_idx < edges@.len(),
                steps_len == edges@.len(),
                edge_total == g.edges.len(),
                appended(start, after_here, here, limit),
                start == old(out)@,
                full == var_rows(g, steps_view(edges@), edge_idx as nat, cur, row@, min_len, max_len, depth as nat, path@),
                full == here + var_list(g, steps_view(edges@), edge_idx as nat, cur, row@, min_len, max_len, depth as nat, path@, es@),
                rel_pattern == &edges@[edge_idx as int].0,
                depth == path@.len(),
                path@.no_duplicates(),
                path@.len() <= g.edges.len(),
                forall|i: int| 0 <= i < path@.len() ==> (#[trigger] path@[i]) < g.edges.len(),
                cur < g.nodes.len(),
                es@ == g.nodes[cur as int].edges,
                j <= es@.len(),
                appended(after_here, out@, var_list(g, steps_view(edges@), edge_idx as nat, cur, row@, min_len, max_len, depth as nat, path@, es@.subrange(0, j as int)), limit),
            decreases es@.len() - j,
        {
            let e = es[j];
            proof {
                assert(e < g.edges.len());
                let pre1 = es@.subrange(0, j as int + 1);
                assert(pre1.drop_last() =~= es@.subrange(0, j as int));
                assert(pre1.last() == e);
            }
            let ghost mid = out@;
            if self.edges[e].start == cur && !ids_contain(path, e) && self.edge_matches(e, rel_pattern) {
                proof {
                    let np = path@.push(e);
                    assert forall|a: int, b: int| 0 <= a < np.len() && 0 <= b < np.len() && a != b implies np[a] != np[b] by {
                        if a < path@.len() && b < path@.len() {
                            assert(path@[a] != path@[b]);
                        } else if a == path@.len() {
                            assert(!path@.contains(e));
                            assert(np[b] == path@[b]);
                        } else {
                            assert(!path@.contains(e));
                            assert(np[a] == path@[a]);
                        }
                    }
                    lemma_distinct_below(np, g.edges.len());
                }
                let mut np = crate::graph::copy_ids(path);
                np.push(e);
                let end = self.edges[e].end;
                self.match_var_length_edges(edges, edge_idx, end, row, out, min_len, max_len, depth + 1, &np, limit);
                proof {
                    let pre = es@.subrange(0, j as int);
                    let pre1 = es@.subrange(0, j as int + 1);
                    let more = var_rows(g, steps_view(edges@), edge_idx as nat, end, row@, min_len, max_len, (depth + 1) as nat, np@);
                    assert(np@ == path@.push(e));
                    assert(var_list(g, steps_view(edges@), edge_idx as nat, cur, row@, min_len, max_len, depth as nat, path@, pre1)
                        == var_list(g, steps_view(edges@), edge_idx as nat, cur, row@, min_len, max_len, depth as nat, path@, pre) + more);
                    lemma_appended_trans(after_here, mid, out@,
                        var_list(g, steps_view(edges@), edge_idx as nat, cur, row@, min_len, max_len, depth as nat, path@, pre), more, limit);
                }
                match limit {
                    Some(l) => {
                        if out.rows() >= l {
                            proof {
                                let pre1 = es@.subrange(0, j as int + 1);
                                let rest = es@.subrange(j as int + 1, es@.len() as int);
                                lemma_var_list_split(g, steps_view(edges@), edge_idx as nat, cur, row@, min_len, max_len, depth as nat, path@, pre1, rest);
                                assert(pre1 + rest =~= es@);
                                lemma_appended_at_limit(after_here, out@,
                                    var_list(g, steps_view(edges@), edge_idx as nat, cur, row@, min_len, max_len, depth as nat, path@, pre1),
                                    var_list(g, steps_view(edges@), edge_idx as nat, cur, row@, min_len, max_len, depth as nat, path@, rest), limit);
                                lemma_appended_trans(start, after_here, out@, here,
                                    var_list(g, steps_view(edges@), edge_idx as nat, cur, row@, min_len, max_len, depth as nat, path@, es@), limit);
                                assert(full == here + var_list(g, steps_view(edges@), edge_idx as nat, cur, row@, min_len, max_len, depth as nat, path@, es@));
                            }
                            return;
                        }
                    },
                    None => {},
                }
            } else {
                proof {
                    let pre = es@.subrange(0, j as int);
                    let pre1 = es@.subrange(0, j as int + 1);
                    if path@.len() < g.edges.len() {
                        assert(!var_step_ok(g, rel_pattern@, cur, path@, e));
                    }
                    assert(var_list(g, steps_view(edges@), edge_idx as nat, cur, row@, min_len, max_len, depth as nat, path@, pre1)
                        == var_list(g, steps_view(edges@), edge_idx as nat, cur, row@, min_len, max_len, depth as nat, path@, pre)) by {
                        if path@.len() >= g.edges.len() {
                            assert(var_list(g, steps_view(edges@), edge_idx as nat, cur, row@, min_len, max_len, depth as nat, path@, pre1) == Seq::<Map<Seq<char>, ElemV>>::empty());
                            assert(var_list(g, steps_view(edges@), edge_idx as nat, cur, row@, min_len, max_len, depth as nat, path@, pre) == Seq::<Map<Seq<char>, ElemV>>::empty());
                        }
                    }
                }
            }
            j = j + 1;
        }
        proof {
            assert(es@.subrange(0, j as int) =~= es@);
            lemma_appended_trans(start, after_here, out@, here,
                var_list(g, steps_view(edges@), edge_idx as nat, cur, row@, min_len, max_len, depth as nat, path@, es@), limit);
        }
    }
}

/// The rows from the matches of two lists are those of the first, then those of the second.
pub proof fn lemma_dfs_list_split(g: GraphV, steps: Seq<(RelPatternV, NodePatternV)>, i: nat, row: Map<Seq<char>, ElemV>,
    a: Seq<(usize, usize)>, b: Seq<(usize, usize)>)
    ensures
        dfs_list(g, steps, i, row, a + b) == dfs_list(g, steps, i, row, a) + dfs_list(g, steps, i, row, b),
    decreases b.len(),
{
    if b.len() == 0 {
        assert(a + b =~= a);
        assert(dfs_list(g, steps, i, row, a) + Seq::<Map<Seq<char>, ElemV>>::empty() =~= dfs_list(g, steps, i, row, a));
    } else {
        lemma_dfs_list_split(g, steps, i, row, a, b.drop_last());
        assert((a + b).drop_last() =~= a + b.drop_last());
        assert((a + b).last() == b.last());
        if i < steps.len() {
            assert(dfs_list(g, steps, i, row, a + b) =~= dfs_list(g, steps, i, row, a) + dfs_list(g, steps, i, row, b));
        }
    }
}

/// The rows from two lists of edges are those of the first, then those of the second.
pub proof fn lemma_var_list_split(g: GraphV, steps: Seq<(RelPatternV, NodePatternV)>, i: nat, cur: usize, row: Map<Seq<char>, ElemV>,
    mn: usize, mx: Option<usize>, depth: nat, path: Seq<usize>, a: Seq<usize>, b: Seq<usize>)
    ensures
        var_list(g, steps, i, cur, row, mn, mx, depth, path, a + b)
            == var_list(g, steps, i, cur, row, mn, mx, depth, path, a) + var_list(g, steps, i, cur, row, mn, mx, depth, path, b),
    decreases b.len(),
{
    if b.len() == 0 {
        assert(a + b =~= a);
        assert(var_list(g, steps, i, cur, row, mn, mx, depth, path, a) + Seq::<Map<Seq<char>, ElemV>>::empty()
            =~= var_list(g, steps, i, cur, row, mn, mx, depth, path, a));
    } else {
        lemma_var_list_split(g, steps, i, cur, row, mn, mx, depth, path, a, b.drop_last());
        assert((a + b).drop_last() =~= a + b.drop_last());
        assert((a + b).last() == b.last());
        if i < steps.len() && path.len() < g.edges.len() {
            assert(var_list(g, steps, i, cur, row, mn, mx, depth, path, a + b)
                =~= var_list(g, steps, i, cur, row, mn, mx, depth, path, a) + var_list(g, steps, i, cur, row, mn, mx, depth, path, b));
        } else {
            assert(var_list(g, steps, i, cur, row, mn, mx, depth, path, a) + Seq::<Map<Seq<char>, ElemV>>::empty()
                =~= Seq::<Map<Seq<char>, ElemV>>::empty());
        }
    }
}

// ---------------------------------------------------------------------------------------------
// What a plan gives.

pub type RowV = Map<Seq<char>, ElemV>;

/// The row with the variable bound to each of the nodes in turn.
pub open spec fn bind_all(row: RowV, var: Option<Seq<char>>, ids: Seq<usize>) -> Seq<RowV> {
    ids.map_values(|id: usize| bind(row, var, ElemV::Node(id)))
}

/// A full scan: for each row, the row with each node `find_nodes` gives for it.
pub open spec fn scan_rows(g: GraphV, p: NodePattern, rows: Seq<RowV>) -> Seq<RowV>
    decreases rows.len(),
{
    if rows.len() == 0 {
        Seq::empty()
    } else {
        scan_rows(g, p, rows.drop_last()) + bind_all(rows.last(), p@.variable, find_nodes_spec(g, p, rows.last()))
    }
}

/// For each row, the row with each of the nodes.
pub open spec fn each_row_nodes(rows: Seq<RowV>, var: Option<Seq<char>>, ids: Seq<usize>) -> Seq<RowV>
    decreases rows.len(),
{
    if rows.len() == 0 {
        Seq::empty()
    } else {
        each_row_nodes(rows.drop_last(), var, ids) + bind_all(rows.last(), var, ids)
    }
}

/// The nodes that have the label (which the graph must know) and match the pattern, in id order.
pub open spec fn label_matches(g: GraphV, label: Seq<char>, p: NodePatternV) -> Seq<usize> {
    match label_id_of(g, label) {
        Some(lid) => all_ids(g.nodes.len()).filter(|id: usize| g.nodes[id as int].labels.contains(lid) && node_matches_spec(g, id as int, p)),
        None => Seq::empty(),
    }
}

/// From each of the nodes, the rows of one step of the pattern.
pub open spec fn expand_ids(g: GraphV, rp: RelPatternV, tp: NodePatternV, row: RowV, ids: Seq<usize>) -> Seq<RowV>
    decreases ids.len(),
{
    if ids.len() == 0 {
        Seq::empty()
    } else {
        expand_ids(g, rp, tp, row, ids.drop_last()) + dfs_rows(g, seq![(rp, tp)], 0, ids.last(), row)
    }
}

/// The start nodes of a step for a row: the node the row binds the source variable to, else the
/// nodes `find_nodes` gives.
pub open spec fn source_ids(g: GraphV, sp: NodePattern, row: RowV) -> Seq<usize> {
    match bound_node(row, sp@.variable) {
        Some(id) => seq![id],
        None => find_nodes_spec(g, sp, row),
    }
}

/// For each source row, the rows of one step of the pattern from its start nodes.
pub open spec fn expand_rows(g: GraphV, sp: NodePattern, rp: RelPatternV, tp: NodePatternV, src: Seq<RowV>) -> Seq<RowV>
    decreases src.len(),
{
    if src.len() == 0 {
        Seq::empty()
    } else {
        expand_rows(g, sp, rp, tp, src.drop_last()) + expand_ids(g, rp, tp, src.last(), source_ids(g, sp, src.last()))
    }
}

/// The rows agree on every name both bind.
pub open spec fn compatible(l: RowV, r: RowV) -> bool {
    forall|k: Seq<char>| #[trigger] l.contains_key(k) && r.contains_key(k) ==> l[k] == r[k]
}

/// The rows agree on every name both bind, other than the join keys.
pub open spec fn compatible_except(l: RowV, r: RowV, keys: Seq<Seq<char>>) -> bool {
    forall|k: Seq<char>| !keys.contains(k) && #[trigger] l.contains_key(k) && r.contains_key(k) ==> l[k] == r[k]
}

/// The value of a name in a row, `Null` when it is not bound.
pub open spec fn key_val(m: RowV, k: Seq<char>) -> ElemV {
    if m.contains_key(k) { m[k] } else { ElemV::Null }
}

/// The rows have equal values (or are both unbound) for every join key.
pub open spec fn keys_eq(a: RowV, b: RowV, keys: Seq<Seq<char>>) -> bool {
    forall|j: int| 0 <= j < keys.len() ==> key_val(a, #[trigger] keys[j]) == key_val(b, keys[j])
}

/// The rows that agree with at least one of `rs`.
pub open spec fn agrees_with_some(rs: Seq<RowV>) -> spec_fn(RowV) -> bool {
    |l: RowV| exists|j: int| 0 <= j < rs.len() && compatible(l, #[trigger] rs[j])
}

/// The rows that agree with `l`.
pub open spec fn compatible_with(l: RowV) -> spec_fn(RowV) -> bool {
    |r: RowV| compatible(l, r)
}

/// A row merged into `l` (the row's bindings win).
pub open spec fn merged_with(l: RowV) -> spec_fn(RowV) -> RowV {
    |r: RowV| l.union_prefer_right(r)
}

/// The build rows that join with the probe row `p`: equal join keys, and agreement on the
/// other names both bind.
pub open spec fn join_match(p: RowV, keys: Seq<Seq<char>>, build_is_left: bool) -> spec_fn(RowV) -> bool {
    |b: RowV| keys_eq(b, p, keys) && (if build_is_left { compatible_except(b, p, keys) } else { compatible_except(p, b, keys) })
}

/// A build row merged with the probe row `p`, the left row first.
pub open spec fn join_merge(p: RowV, build_is_left: bool) -> spec_fn(RowV) -> RowV {
    |b: RowV| if build_is_left { b.union_prefer_right(p) } else { p.union_prefer_right(b) }
}

/// Each left row merged with each right row it agrees with, in order.
pub open spec fn cross_pairs(ls: Seq<RowV>, rs: Seq<RowV>) -> Seq<RowV>
    decreases ls.len(),
{
    if ls.len() == 0 {
        Seq::empty()
    } else {
        let l = ls.last();
        cross_pairs(ls.drop_last(), rs) + rs.filter(compatible_with(l)).map_values(merged_with(l))
    }
}

/// For each probe row, the build rows with equal join keys that otherwise agree with it, merged
/// (left row, then right row).
pub open spec fn probe_pairs(builds: Seq<RowV>, probes: Seq<RowV>, keys: Seq<Seq<char>>, build_is_left: bool) -> Seq<RowV>
    decreases probes.len(),
{
    if probes.len() == 0 {
        Seq::empty()
    } else {
        let p = probes.last();
        probe_pairs(builds, probes.drop_last(), keys, build_is_left)
            + builds.filter(join_match(p, keys, build_is_left)).map_values(join_merge(p, build_is_left))
    }
}

/// A hash join of two lists of rows: built on the shorter (the left one when equal), probed
/// with the other.
pub open spec fn join_pairs(ls: Seq<RowV>, rs: Seq<RowV>, keys: Seq<Seq<char>>) -> Seq<RowV> {
    if ls.len() <= rs.len() {
        probe_pairs(ls, rs, keys, true)
    } else {
        probe_pairs(rs, ls, keys, false)
    }
}

/// The rows a plan appends for the input rows, in order, before any limit.
pub open spec fn plan_rows(g: GraphV, plan: PlanNode, rows: Seq<RowV>) -> Seq<RowV>
    decreases plan, 1int, 0int,
{
    match plan {
        PlanNode::FullNodeScan { pattern } => scan_rows(g, pattern, rows),
        PlanNode::NodeLabelLookup { label, pattern } => each_row_nodes(rows, pattern@.variable, label_matches(g, label@, pattern@)),
        PlanNode::NodeIndexLookup { label, property, value, pattern } =>
            each_row_nodes(rows, pattern@.variable, index_list(g, label@, property@, value@).filter(matching_node(g, pattern@))),
        PlanNode::PathExpand { source, source_node_pattern, rel_pattern, target_node_pattern } =>
            expand_rows(g, source_node_pattern, rel_pattern@, target_node_pattern@, plan_rows(g, *source, rows)),
        PlanNode::Intersect { left, right } => {
            let rs = plan_rows(g, *right, rows);
            plan_rows(g, *left, rows).filter(agrees_with_some(rs))
        },
        PlanNode::Union { left, right } => plan_rows(g, *left, rows) + plan_rows(g, *right, rows),
        PlanNode::HashJoin { .. } => pair_rows(g, plan, rows),
        PlanNode::CrossProduct { .. } => pair_rows(g, plan, rows),
    }
}

/// A join or cross product, row by input row.
pub open spec fn pair_rows(g: GraphV, plan: PlanNode, rows: Seq<RowV>) -> Seq<RowV>
    decreases plan, 0int, rows.len(),
{
    if rows.len() == 0 {
        Seq::empty()
    } else {
        pair_rows(g, plan, rows.drop_last()) + pair_step(g, plan, rows.last())
    }
}

/// A join or cross product for one input row: both sides run on that row alone, then paired.
pub open spec fn pair_step(g: GraphV, plan: PlanNode, row: RowV) -> Seq<RowV>
    decreases plan, 0int, 0nat,
{
    match plan {
        PlanNode::CrossProduct { left, right } => cross_pairs(plan_rows(g, *left, seq![row]), plan_rows(g, *right, seq![row])),
        PlanNode::HashJoin { left, right, join_keys } =>
            join_pairs(plan_rows(g, *left, seq![row]), plan_rows(g, *right, seq![row]), names_view(join_keys@)),
        _ => Seq::empty(),
    }
}

/// The rows agree on every name both bind (see `compatible`), leaving out the names in `skip`.
pub fn rows_agree(l: &Row, r: &Row, skip: &Vec<String>) -> (res: bool)
    requires
        l.wf(),
        r.wf(),
    ensures
        res == compatible_except(l@, r@, names_view(skip@)),
{
    proof { r.lemma_keys(); }
    let n = r.len();
    let ghost keys = names_view(skip@);
    let mut i: usize = 0;
    while i < n
        invariant
            l.wf(),
            r.wf(),
            n == r.names().len(),
            r.names().to_set() == r@.dom(),
            forall|j: int| 0 <= j < r.names().len() ==> #[trigger] r@.contains_key(r.names()[j]),
            keys == names_view(skip@),
            i <= n,
            forall|j: int| 0 <= j < i ==> {
                let k = #[trigger] r.names()[j];
                !keys.contains(k) && l@.contains_key(k) ==> l@[k] == r@[k]
            },
        decreases n - i,
    {
        let (k, v) = r.entry(i);
        let skipped = name_in(skip, k);
        if !skipped {
            match l.get(k.as_str()) {
                Some(lv) => {
                    if !lv.equals(v) {
                        return false;
                    }
                },
                None => {},
            }
        }
        i = i + 1;
    }
    proof {
        assert forall|k: Seq<char>| !keys.contains(k) && #[trigger] l@.contains_key(k) && r@.contains_key(k) implies l@[k] == r@[k] by {
            assert(r.names().to_set().contains(k));
            let j = choose|j: int| 0 <= j < r.names().len() && r.names()[j] == k;
        }
    }
    true
}

/// `k` is one of the names.
pub fn name_in(names: &Vec<String>, k: &String) -> (r: bool)
    ensures
        r == names_view(names@).contains(k@),
{
    let mut i: usize = 0;
    while i < names.len()
        invariant
            i <= names@.len(),
            forall|j: int| 0 <= j < i ==> names@[j]@ != k@,
        decreases names@.len() - i,
    {
        if crate::keyed::str_eq(names[i].as_str(), k.as_str()) {
            assert(names_view(names@)[i as int] == k@);
            return true;
        }
        i = i + 1;
    }
    proof {
        if names_view(names@).contains(k@) {
            let j = choose|j: int| 0 <= j < names_view(names@).len() && names_view(names@)[j] == k@;
            assert(names@[j]@ == k@);
        }
    }
    false
}

/// The rows have equal values (or are both unbound) for every key (see `keys_eq`).
pub fn rows_keys_equal(a: &Row, b: &Row, keys: &Vec<String>) -> (r: bool)
    requires
        a.wf(),
        b.wf(),
    ensures
        r == keys_eq(a@, b@, names_view(keys@)),
{
    let mut j: usize = 0;
    while j < keys.len()
        invariant
            a.wf(),
            b.wf(),
            j <= keys@.len(),
            forall|q: int| 0 <= q < j ==> key_val(a@, #[trigger] names_view(keys@)[q]) == key_val(b@, names_view(keys@)[q]),
        decreases keys@.len() - j,
    {
        let k = keys[j].as_str();
        let same = match (a.get(k), b.get(k)) {
            (Some(x), Some(y)) => x.equals(y),
            (None, None) => true,
            (Some(x), None) => {
                proof { a.lemma_no_null(); }
                false
            },
            (None, Some(y)) => {
                proof { b.lemma_no_null(); }
                false
            },
        };
        if !same {
            assert(key_val(a@, names_view(keys@)[j as int]) != key_val(b@, names_view(keys@)[j as int]));
            return false;
        }
        j = j + 1;
    }
    true
}

/// At the limit, after an append that stopped early.
pub open spec fn at_limit(r: crate::graph::result_set::ResultV, limit: Option<usize>) -> bool {
    limit matches Some(l) && r.rows.len() >= l
}

/// The two pieces of a list split at `i`, for lists built from their prefixes.
pub proof fn lemma_prefix_push<T>(s: Seq<T>, i: int)
    requires
        0 <= i < s.len(),
    ensures
        s.subrange(0, i + 1).drop_last() == s.subrange(0, i),
        s.subrange(0, i + 1).last() == s[i],
{
    assert(s.subrange(0, i + 1).drop_last() =~= s.subrange(0, i));
}

/// Appends one row under the limit.
pub(crate) fn push_limited(out: &mut ResultSet, row: &Row, limit: Option<usize>) -> (stopped: bool)
    requires
        old(out).wf(),
        row.wf(),
        !at_limit(old(out)@, limit),
    ensures
        final(out).wf(),
        appended(old(out)@, final(out)@, seq![row@], limit),
        stopped == at_limit(final(out)@, limit),
{
    let ghost start = out@;
    out.push_row(row);
    proof {
        assert(start.rows + seq![row@] =~= out@.rows);
        assert(out@.rows.subrange(start.rows.len() as int, out@.rows.len() as int) =~= seq![row@]);
        lemma_rows_dom_single(row@);
    }
    match limit {
        Some(l) => out.rows() >= l,
        None => false,
    }
}

impl Graph {
    /// Appends, for each row of `in_res`, the row with the variable bound to each of the nodes.
    pub(crate) fn push_nodes_for_rows(&self, in_res: &ResultSet, var: &Option<String>, ids: &Vec<usize>, out: &mut ResultSet, limit: Option<usize>) -> (stopped: bool)
        requires
            in_res.wf(),
            old(out).wf(),
        ensures
            final(out).wf(),
            appended(old(out)@, final(out)@, each_row_nodes(in_res@.rows, crate::parser::opt_str_view(*var), ids@), limit),
            stopped ==> at_limit(final(out)@, limit),
            !stopped ==> !at_limit(final(out)@, limit),
    {
        let ghost start = out@;
        let ghost rows = in_res@.rows;
        let ghost v = crate::parser::opt_str_view(*var);
        proof { lemma_appended_none(start, limit); }
        if at_limit_exec(out, limit) {
            proof {
                lemma_appended_at_limit(start, start, Seq::empty(), each_row_nodes(rows, v, ids@), limit);
                assert(Seq::<RowV>::empty() + each_row_nodes(rows, v, ids@) =~= each_row_nodes(rows, v, ids@));
            }
            return true;
        }
        let n = in_res.rows();
        let mut i: usize = 0;
        while i < n
            invariant
                in_res.wf(),
                out.wf(),
                rows == in_res@.rows,
                n == rows.len(),
                v == crate::parser::opt_str_view(*var),
                start == old(out)@,
                i <= n,
                !at_limit(out@, limit),
                appended(start, out@, each_row_nodes(rows.subrange(0, i as int), v, ids@), limit),
            decreases n - i,
        {
            let row = in_res.row(i);
            let ghost before_row = out@;
            proof { lemma_appended_none(before_row, limit); }
            let mut j: usize = 0;
            while j < ids.len()
                invariant
                    row.wf(),
                    row@ == rows[i as int],
                    out.wf(),
                    in_res.wf(),
                    rows == in_res@.rows,
                    n == rows.len(),
                    i < n,
                    v == crate::parser::opt_str_view(*var),
                    start == old(out)@,
                    appended(start, before_row, each_row_nodes(rows.subrange(0, i as int), v, ids@), limit),
                    j <= ids@.len(),
                    !at_limit(out@, limit),
                    appended(before_row, out@, bind_all(row@, v, ids@.subrange(0, j as int)), limit),
                decreases ids@.len() - j,
            {
                let b = bind_row(row, var, GraphElement::Node(ids[j]));
                let ghost mid = out@;
                let stop = push_limited(out, &b, limit);
                proof {
                    assert(bind_all(row@, v, ids@.subrange(0, j as int + 1)) =~= bind_all(row@, v, ids@.subrange(0, j as int)) + seq![b@]);
                    lemma_appended_trans(before_row, mid, out@, bind_all(row@, v, ids@.subrange(0, j as int)), seq![b@], limit);
                }
                if stop {
                    proof {
                        let all_row = bind_all(row@, v, ids@);
                        let pre = bind_all(row@, v, ids@.subrange(0, j as int + 1));
                        let post = bind_all(row@, v, ids@.subrange(j as int + 1, ids@.len() as int));
                        assert(all_row =~= pre + post);
                        lemma_appended_at_limit(before_row, out@, pre, post, limit);
                        lemma_appended_trans(start, before_row, out@, each_row_nodes(rows.subrange(0, i as int), v, ids@), all_row, limit);
                        lemma_prefix_push(rows, i as int);
                        let later = each_row_nodes(rows.subrange(0, n as int), v, ids@);
                        lemma_each_row_nodes_split(rows, v, ids@, i as int + 1);
                        lemma_appended_at_limit(start, out@, each_row_nodes(rows.subrange(0, i as int + 1), v, ids@),
                            each_row_nodes(rows.subrange(i as int + 1, n as int), v, ids@), limit);
                        assert(rows.subrange(0, n as int) =~= rows);
                    }
                    return true;
                }
                j = j + 1;
            }
            proof {
                assert(ids@.subrange(0, j as int) =~= ids@);
                lemma_prefix_push(rows, i as int);
                lemma_appended_trans(start, before_row, out@, each_row_nodes(rows.subrange(0, i as int), v, ids@), bind_all(row@, v, ids@), limit);
            }
            i = i + 1;
        }
        assert(rows.subrange(0, n as int) =~= rows);
        false
    }
}

/// Rows from a list split in two.
pub proof fn lemma_each_row_nodes_split(rows: Seq<RowV>, v: Option<Seq<char>>, ids: Seq<usize>, i: int)
    requires
        0 <= i <= rows.len(),
    ensures
        each_row_nodes(rows, v, ids) == each_row_nodes(rows.subrange(0, i), v, ids) + each_row_nodes(rows.subrange(i, rows.len() as int), v, ids),
    decreases rows.len() - i,
{
    if i == rows.len() {
        assert(rows.subrange(0, i) =~= rows);
        assert(rows.subrange(i, rows.len() as int) =~= Seq::<RowV>::empty());
        assert(each_row_nodes(rows, v, ids) + Seq::<RowV>::empty() =~= each_row_nodes(rows, v, ids));
    } else {
        lemma_each_row_nodes_split(rows.drop_last(), v, ids, i);
        assert(rows.drop_last().subrange(0, i) =~= rows.subrange(0, i));
        let tail = rows.subrange(i, rows.len() as int);
        assert(tail.drop_last() =~= rows.drop_last().subrange(i, rows.drop_last().len() as int));
        assert(tail.last() == rows.last());
        assert(each_row_nodes(rows, v, ids) =~= each_row_nodes(rows.subrange(0, i), v, ids) + each_row_nodes(tail, v, ids));
    }
}

/// `out` has reached the limit.
pub fn at_limit_exec(out: &ResultSet, limit: Option<usize>) -> (r: bool)
    ensures
        r == at_limit(out@, limit),
{
    match limit {
        Some(l) => out.rows() >= l,
        None => false,
    }
}

/// Rows from a list split in two.
pub proof fn lemma_scan_rows_split(g: GraphV, p: NodePattern, rows: Seq<RowV>, i: int)
    requires
        0 <= i <= rows.len(),
    ensures
        scan_rows(g, p, rows) == scan_rows(g, p, rows.subrange(0, i)) + scan_rows(g, p, rows.subrange(i, rows.len() as int)),
    decreases rows.len() - i,
{
    if i == rows.len() {
        assert(rows.subrange(0, i) =~= rows);
        assert(rows.subrange(i, rows.len() as int) =~= Seq::<RowV>::empty());
        assert(scan_rows(g, p, rows) + Seq::<RowV>::empty() =~= scan_rows(g, p, rows));
    } else {
        lemma_scan_rows_split(g, p, rows.drop_last(), i);
        assert(rows.drop_last().subrange(0, i) =~= rows.subrange(0, i));
        let tail = rows.subrange(i, rows.len() as int);
        assert(tail.drop_last() =~= rows.drop_last().subrange(i, rows.drop_last().len() as int));
        assert(tail.last() == rows.last());
        assert(scan_rows(g, p, rows) =~= scan_rows(g, p, rows.subrange(0, i)) + scan_rows(g, p, tail));
    }
}

/// Rows from a list split in two.
pub proof fn lemma_expand_rows_split(g: GraphV, sp: NodePattern, rp: RelPatternV, tp: NodePatternV, rows: Seq<RowV>, i: int)
    requires
        0 <= i <= rows.len(),
    ensures
        expand_rows(g, sp, rp, tp, rows) == expand_rows(g, sp, rp, tp, rows.subrange(0, i)) + expand_rows(g, sp, rp, tp, rows.subrange(i, rows.len() as int)),
    decreases rows.len() - i,
{
    if i == rows.len() {
        assert(rows.subrange(0, i) =~= rows);
        assert(rows.subrange(i, rows.len() as int) =~= Seq::<RowV>::empty());
        assert(expand_rows(g, sp, rp, tp, rows) + Seq::<RowV>::empty() =~= expand_rows(g, sp, rp, tp, rows));
    } else {
        lemma_expand_rows_split(g, sp, rp, tp, rows.drop_last(), i);
        assert(rows.drop_last().subrange(0, i) =~= rows.subrange(0, i));
        let tail = rows.subrange(i, rows.len() as int);
        assert(tail.drop_last() =~= rows.drop_last().subrange(i, rows.drop_last().len() as int));
        assert(tail.last() == rows.last());
        assert(expand_rows(g, sp, rp, tp, rows) =~= expand_rows(g, sp, rp, tp, rows.subrange(0, i)) + expand_rows(g, sp, rp, tp, tail));
    }
}

/// Rows from a list split in two.
pub proof fn lemma_cross_pairs_split(rows: Seq<RowV>, rs: Seq<RowV>, i: int)
    requires
        0 <= i <= rows.len(),
    ensures
        cross_pairs(rows, rs) == cross_pairs(rows.subrange(0, i), rs) + cross_pairs(rows.subrange(i, rows.len() as int), rs),
    decreases rows.len() - i,
{
    if i == rows.len() {
        assert(rows.subrange(0, i) =~= rows);
        assert(rows.subrange(i, rows.len() as int) =~= Seq::<RowV>::empty());
        assert(cross_pairs(rows, rs) + Seq::<RowV>::empty() =~= cross_pairs(rows, rs));
    } else {
        lemma_cross_pairs_split(rows.drop_last(), rs, i);
        assert(rows.drop_last().subrange(0, i) =~= rows.subrange(0, i));
        let tail = rows.subrange(i, rows.len() as int);
        assert(tail.drop_last() =~= rows.drop_last().subrange(i, rows.drop_last().len() as int));
        assert(tail.last() == rows.last());
        assert(cross_pairs(rows, rs) =~= cross_pairs(rows.subrange(0, i), rs) + cross_pairs(tail, rs));
    }
}

/// Filtering and mapping a list, one element more.
pub proof fn lemma_filter_map_step<A, B>(s: Seq<A>, p: spec_fn(A) -> bool, f: spec_fn(A) -> B, j: int)
    requires
        0 <= j < s.len(),
    ensures
        s.subrange(0, j + 1).filter(p).map_values(f)
            == s.subrange(0, j).filter(p).map_values(f) + (if p(s[j]) { seq![f(s[j])] } else { Seq::<B>::empty() }),
{
    assert(s.subrange(0, j + 1) =~= s.subrange(0, j).push(s[j]));
    s.subrange(0, j).lemma_filter_push(s[j], p);
    if p(s[j]) {
        assert(s.subrange(0, j).filter(p).push(s[j]).map_values(f) =~= s.subrange(0, j).filter(p).map_values(f) + seq![f(s[j])]);
    } else {
        assert(s.subrange(0, j).filter(p).map_values(f) + Seq::<B>::empty() =~= s.subrange(0, j).filter(p).map_values(f));
    }
}

/// Filtering and mapping a list split in two.
pub proof fn lemma_filter_map_split<A, B>(s: Seq<A>, p: spec_fn(A) -> bool, f: spec_fn(A) -> B, j: int)
    requires
        0 <= j <= s.len(),
    ensures
        s.filter(p).map_values(f) == s.subrange(0, j).filter(p).map_values(f) + s.subrange(j, s.len() as int).filter(p).map_values(f),
{
    assert(s =~= s.subrange(0, j) + s.subrange(j, s.len() as int));
    Seq::filter_distributes_over_add(s.subrange(0, j), s.subrange(j, s.len() as int), p);
    assert((s.subrange(0, j).filter(p) + s.subrange(j, s.len() as int).filter(p)).map_values(f)
        =~= s.subrange(0, j).filter(p).map_values(f) + s.subrange(j, s.len() as int).filter(p).map_values(f));
}

impl Graph {
    /// Appends, for each row of `in_res`, the row with the pattern's variable bound to each node
    /// `find_nodes` gives (see `scan_rows`).
    pub(crate) fn scan_into(&self, pattern: &NodePattern, in_res: &ResultSet, out: &mut ResultSet, limit: Option<usize>) -> (stopped: bool)
        requires
            self.wf(),
            pattern.properties.wf(),
            in_res.wf(),
            old(out).wf(),
        ensures
            final(out).wf(),
            appended(old(out)@, final(out)@, scan_rows(self@, *pattern, in_res@.rows), limit),
            stopped ==> at_limit(final(out)@, limit),
            !stopped ==> !at_limit(final(out)@, limit),
    {
        let ghost g = self@;
        let ghost start = out@;
        let ghost rows = in_res@.rows;
        let ghost v = pattern@.variable;
        proof { lemma_appended_none(start, limit); }
        if at_limit_exec(out, limit) {
            proof {
                lemma_appended_at_limit(start, start, Seq::empty(), scan_rows(g, *pattern, rows), limit);
                assert(Seq::<RowV>::empty() + scan_rows(g, *pattern, rows) =~= scan_rows(g, *pattern, rows));
            }
            return true;
        }
        let n = in_res.rows();
        let mut i: usize = 0;
        while i < n
            invariant
                self.wf(),
                g == self@,
                pattern.properties.wf(),
                in_res.wf(),
                out.wf(),
                rows == in_res@.rows,
                n == rows.len(),
                v == pattern@.variable,
                start == old(out)@,
                i <= n,
                !at_limit(out@, limit),
                appended(start, out@, scan_rows(g, *pattern, rows.subrange(0, i as int)), limit),
            decreases n - i,
        {
            let row = in_res.row(i);
            let ids = self.find_nodes(pattern, in_res, i);
            let ghost before_row = out@;
            proof { lemma_appended_none(before_row, limit); }
            let mut j: usize = 0;
            while j < ids.len()
                invariant
                    self.wf(),
                    g == self@,
                    row.wf(),
                    row@ == rows[i as int],
                    out.wf(),
                    in_res.wf(),
                    rows == in_res@.rows,
                    n == rows.len(),
                    i < n,
                    v == pattern@.variable,
                    ids@ == find_nodes_spec(g, *pattern, rows[i as int]),
                    start == old(out)@,
                    appended(start, before_row, scan_rows(g, *pattern, rows.subrange(0, i as int)), limit),
                    j <= ids@.len(),
                    !at_limit(out@, limit),
                    appended(before_row, out@, bind_all(row@, v, ids@.subrange(0, j as int)), limit),
                decreases ids@.len() - j,
            {
                let b = bind_row(row, &pattern.variable, GraphElement::Node(ids[j]));
                let ghost mid = out@;
                let stop = push_limited(out, &b, limit);
                proof {
                    assert(bind_all(row@, v, ids@.subrange(0, j as int + 1)) =~= bind_all(row@, v, ids@.subrange(0, j as int)) + seq![b@]);
                    lemma_appended_trans(before_row, mid, out@, bind_all(row@, v, ids@.subrange(0, j as int)), seq![b@], limit);
                }
                if stop {
                    proof {
                        let all_row = bind_all(row@, v, ids@);
                        let pre = bind_all(row@, v, ids@.subrange(0, j as int + 1));
                        let post = bind_all(row@, v, ids@.subrange(j as int + 1, ids@.len() as int));
                        assert(all_row =~= pre + post);
                        lemma_appended_at_limit(before_row, out@, pre, post, limit);
                        lemma_appended_trans(start, before_row, out@, scan_rows(g, *pattern, rows.subrange(0, i as int)), all_row, limit);
                        lemma_prefix_push(rows, i as int);
                        assert(scan_rows(g, *pattern, rows.subrange(0, i as int + 1))
                            == scan_rows(g, *pattern, rows.subrange(0, i as int)) + all_row);
                        lemma_scan_rows_split(g, *pattern, rows, i as int + 1);
                        lemma_appended_at_limit(start, out@, scan_rows(g, *pattern, rows.subrange(0, i as int + 1)),
                            scan_rows(g, *pattern, rows.subrange(i as int + 1, n as int)), limit);
                    }
                    return true;
                }
                j = j + 1;
            }
            proof {
                assert(ids@.subrange(0, j as int) =~= ids@);
                lemma_prefix_push(rows, i as int);
                lemma_appended_trans(start, before_row, out@, scan_rows(g, *pattern, rows.subrange(0, i as int)), bind_all(row@, v, ids@), limit);
            }
            i = i + 1;
        }
        assert(rows.subrange(0, n as int) =~= rows);
        false
    }

    /// The start nodes of a step for row `i` of `src` (see `source_ids`).
    fn source_nodes(&self, sp: &NodePattern, src: &ResultSet, i: usize) -> (r: Vec<usize>)
        requires
            self.wf(),
            sp.properties.wf(),
            src.wf(),
            i < src@.rows.len(),
        ensures
            r@ == source_ids(self@, *sp, src@.rows[i as int]),
    {
        match row_node(src.row(i), &sp.variable) {
            Some(id) => vec![id],
            None => self.find_nodes(sp, src, i),
        }
    }

    /// Appends, for each row of `src`, the rows of one step of the pattern from its start nodes
    /// (see `expand_rows`).
    pub(crate) fn expand_into(&self, sp: &NodePattern, rp: &RelPattern, tp: &NodePattern, src: &ResultSet, out: &mut ResultSet, limit: Option<usize>) -> (stopped: bool)
        requires
            self.wf(),
            sp.properties.wf(),
            rp.properties.wf(),
            tp.properties.wf(),
            src.wf(),
            old(out).wf(),
        ensures
            final(out).wf(),
            appended(old(out)@, final(out)@, expand_rows(self@, *sp, rp@, tp@, src@.rows), limit),
            stopped ==> at_limit(final(out)@, limit),
            !stopped ==> !at_limit(final(out)@, limit),
    {
        let ghost g = self@;
        let ghost start = out@;
        let ghost rows = src@.rows;
        proof { lemma_appended_none(start, limit); }
        if at_limit_exec(out, limit) {
            proof {
                lemma_appended_at_limit(start, start, Seq::empty(), expand_rows(g, *sp, rp@, tp@, rows), limit);
                assert(Seq::<RowV>::empty() + expand_rows(g, *sp, rp@, tp@, rows) =~= expand_rows(g, *sp, rp@, tp@, rows));
            }
            return true;
        }
        let n = src.rows();
        let mut i: usize = 0;
        while i < n
            invariant
                self.wf(),
                g == self@,
                sp.properties.wf(),
                rp.properties.wf(),
                tp.properties.wf(),
                src.wf(),
                out.wf(),
                rows == src@.rows,
                n == rows.len(),
                start == old(out)@,
                i <= n,
                !at_limit(out@, limit),
                appended(start, out@, expand_rows(g, *sp, rp@, tp@, rows.subrange(0, i as int)), limit),
            decreases n - i,
        {
            let row = src.row(i);
            let ids = self.source_nodes(sp, src, i);
            let ghost before_row = out@;
            proof { lemma_appended_none(before_row, limit); }
            let mut j: usize = 0;
            while j < ids.len()
                invariant
                    self.wf(),
                    g == self@,
                    rp.properties.wf(),
                    tp.properties.wf(),
                    row.wf(),
                    row@ == rows[i as int],
                    out.wf(),
                    src.wf(),
                    rows == src@.rows,
                    n == rows.len(),
                    i < n,
                    ids@ == source_ids(g, *sp, rows[i as int]),
                    start == old(out)@,
                    appended(start, before_row, expand_rows(g, *sp, rp@, tp@, rows.subrange(0, i as int)), limit),
                    j <= ids@.len(),
                    !at_limit(out@, limit),
                    appended(before_row, out@, expand_ids(g, rp@, tp@, row@, ids@.subrange(0, j as int)), limit),
                decreases ids@.len() - j,
            {
                let steps = vec![(rp.copy(), tp.copy())];
                proof {
                    assert(steps_view(steps@) =~= seq![(rp@, tp@)]);
                    assert(crate::parser::grammar::steps_wf(steps@));
                }
                let ghost mid = out@;
                self.match_edges_recursive(&steps, 0, ids[j], row, out, limit);
                proof {
                    lemma_prefix_push(ids@, j as int);
                    let here = dfs_rows(g, seq![(rp@, tp@)], 0, ids@[j as int], row@);
                    assert(expand_ids(g, rp@, tp@, row@, ids@.subrange(0, j as int + 1)) == expand_ids(g, rp@, tp@, row@, ids@.subrange(0, j as int)) + here);
                    lemma_appended_trans(before_row, mid, out@, expand_ids(g, rp@, tp@, row@, ids@.subrange(0, j as int)), here, limit);
                }
                if at_limit_exec(out, limit) {
                    proof {
                        lemma_expand_ids_split(g, rp@, tp@, row@, ids@, j as int + 1);
                        lemma_appended_at_limit(before_row, out@, expand_ids(g, rp@, tp@, row@, ids@.subrange(0, j as int + 1)),
                            expand_ids(g, rp@, tp@, row@, ids@.subrange(j as int + 1, ids@.len() as int)), limit);
                        let all_row = expand_ids(g, rp@, tp@, row@, ids@);
                        lemma_appended_trans(start, before_row, out@, expand_rows(g, *sp, rp@, tp@, rows.subrange(0, i as int)), all_row, limit);
                        lemma_prefix_push(rows, i as int);
                        lemma_expand_rows_split(g, *sp, rp@, tp@, rows, i as int + 1);
                        lemma_appended_at_limit(start, out@, expand_rows(g, *sp, rp@, tp@, rows.subrange(0, i as int + 1)),
                            expand_rows(g, *sp, rp@, tp@, rows.subrange(i as int + 1, n as int)), limit);
                    }
                    return true;
                }
                j = j + 1;
            }
            proof {
                assert(ids@.subrange(0, j as int) =~= ids@);
                lemma_prefix_push(rows, i as int);
                lemma_appended_trans(start, before_row, out@, expand_rows(g, *sp, rp@, tp@, rows.subrange(0, i as int)),
                    expand_ids(g, rp@, tp@, row@, ids@), limit);
            }
            i = i + 1;
        }
        assert(rows.subrange(0, n as int) =~= rows);
        false
    }
}

/// Rows from a list of start nodes split in two.
pub proof fn lemma_expand_ids_split(g: GraphV, rp: RelPatternV, tp: NodePatternV, row: RowV, ids: Seq<usize>, i: int)
    requires
        0 <= i <= ids.len(),
    ensures
        expand_ids(g, rp, tp, row, ids) == expand_ids(g, rp, tp, row, ids.subrange(0, i)) + expand_ids(g, rp, tp, row, ids.subrange(i, ids.len() as int)),
    decreases ids.len() - i,
{
    if i == ids.len() {
        assert(ids.subrange(0, i) =~= ids);
        assert(ids.subrange(i, ids.len() as int) =~= Seq::<usize>::empty());
        assert(expand_ids(g, rp, tp, row, ids) + Seq::<RowV>::empty() =~= expand_ids(g, rp, tp, row, ids));
    } else {
        lemma_expand_ids_split(g, rp, tp, row, ids.drop_last(), i);
        assert(ids.drop_last().subrange(0, i) =~= ids.subrange(0, i));
        let tail = ids.subrange(i, ids.len() as int);
        assert(tail.drop_last() =~= ids.drop_last().subrange(i, ids.drop_last().len() as int));
        assert(tail.last() == ids.last());
        assert(expand_ids(g, rp, tp, row, ids) =~= expand_ids(g, rp, tp, row, ids.subrange(0, i)) + expand_ids(g, rp, tp, row, tail));
    }
}

} // verus!
