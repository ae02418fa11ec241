use vstd::prelude::*;
use crate::graph::{ids_contain, lemma_logged_redoes, lemma_redoes_refl, lemma_redoes_trans, redoes, Graph};
use crate::graph::{lemma_logged_since_concat, lemma_logged_since_push, lemma_logged_since_refl, logged_since};
use crate::graph::types::WalEntryV;
use crate::graph::element::{elems_view, lemma_elems_view, ElemV, GraphElement};
use crate::graph::matching::{bound_edge, bound_node, label_id_of, limited, plan_rows, RowV};
use crate::graph::eval::cond_holds;
use crate::graph::plan_exec::{bound_rows, plan_profile, profile_adds, profile_grows};
use crate::planner::{PlanNode, plan_wf};
use crate::parser::{items_view, opt_cond_view, paths_view, CondV, Condition, ItemV, PathV, ProjectionItem};
use crate::graph::result_set::apply_bindings;
use crate::graph::model::{g_add_label, law_replay_concat, wal_replay, GraphV};
use crate::graph::result_set::{bindings_view, ResultSet};
use crate::parser::{opt_str_view, NodePattern, NodePatternV, Path, RelPattern, RelPatternV};
use crate::text::own;
use crate::property::{PropV, PropertyValue};

verus! {

// ---------------------------------------------------------------------------------------------
// What the changing steps log.

/// The nodes a `SET` step changes: each node below `n` (each one that exists) that the rows
/// bind `var` to, once, in the order the rows first name them.
pub open spec fn set_targets(rows: Seq<RowV>, var: Seq<char>, n: nat) -> Seq<usize>
    decreases rows.len(),
{
    if rows.len() == 0 {
        Seq::empty()
    } else {
        let t = set_targets(rows.drop_last(), var, n);
        match bound_node(rows.last(), Some(var)) {
            Some(id) => if id < n && !t.contains(id) { t.push(id) } else { t },
            None => t,
        }
    }
}

/// The log entries that set `key` to `value` on each of the nodes, in order.
pub open spec fn set_entries(ids: Seq<usize>, key: Seq<char>, value: PropV) -> Seq<WalEntryV> {
    ids.map_values(|id: usize| WalEntryV::SetNodeProperty { node_id: id, key: key, value: value })
}

/// The ids a `DELETE` step gathers for one variable, added to `acc`: each node (or, when
/// `nodes` is false, each edge) that the rows bind `var` to and that is not yet listed, in the
/// order of the rows.
pub open spec fn collect_bound(rows: Seq<RowV>, var: Seq<char>, acc: Seq<usize>, nodes: bool) -> Seq<usize>
    decreases rows.len(),
{
    if rows.len() == 0 {
        acc
    } else {
        let a = collect_bound(rows.drop_last(), var, acc, nodes);
        let b = if nodes { bound_node(rows.last(), Some(var)) } else { bound_edge(rows.last(), Some(var)) };
        match b {
            Some(id) => if a.contains(id) { a } else { a.push(id) },
            None => a,
        }
    }
}

/// The ids a `DELETE` step gathers for its variables, one variable after the other.
pub open spec fn collect_vars(rows: Seq<RowV>, vars: Seq<Seq<char>>, nodes: bool) -> Seq<usize>
    decreases vars.len(),
{
    if vars.len() == 0 {
        Seq::empty()
    } else {
        collect_bound(rows, vars.last(), collect_vars(rows, vars.drop_last(), nodes), nodes)
    }
}

/// The entries that delete the listed edges one after the other, skipping each one that does
/// not exist or is already deleted when its turn comes.
pub open spec fn delete_edges_log(g: GraphV, ids: Seq<usize>) -> Seq<WalEntryV>
    decreases ids.len(),
{
    if ids.len() == 0 {
        Seq::empty()
    } else {
        let r = delete_edges_log(g, ids.drop_last());
        let h = wal_replay(g, r);
        let e = ids.last();
        if e < h.edges.len() && !h.edges[e as int].deleted { r.push(WalEntryV::DeleteEdge { edge_id: e }) } else { r }
    }
}

/// The entries that delete the listed nodes one after the other, skipping each one that does
/// not exist or is already deleted when its turn comes.
pub open spec fn delete_nodes_log(g: GraphV, ids: Seq<usize>) -> Seq<WalEntryV>
    decreases ids.len(),
{
    if ids.len() == 0 {
        Seq::empty()
    } else {
        let r = delete_nodes_log(g, ids.drop_last());
        let h = wal_replay(g, r);
        let n = ids.last();
        if n < h.nodes.len() && !h.nodes[n as int].deleted { r.push(WalEntryV::DeleteNode { node_id: n }) } else { r }
    }
}

/// What a `DELETE` of `vars` logs on graph `g`: first the edges the rows bind the variables to,
/// then the nodes (see `collect_vars`).
pub open spec fn delete_log(g: GraphV, rows: Seq<RowV>, vars: Seq<Seq<char>>) -> Seq<WalEntryV> {
    let es = delete_edges_log(g, collect_vars(rows, vars, false));
    es + delete_nodes_log(wal_replay(g, es), collect_vars(rows, vars, true))
}

/// The names of a list of variables.
pub open spec fn names_view(vars: Seq<String>) -> Seq<Seq<char>> {
    vars.map_values(|s: String| s@)
}

// ---------------------------------------------------------------------------------------------
// What creating logs. Created nodes and edges get fresh random ids; the entries below take them
// from `fin`, the graph as it is afterwards (ids never change once given).

/// `b` keeps the nodes and edges of `a`, with their ids.
pub open spec fn ids_kept(a: GraphV, b: GraphV) -> bool {
    &&& a.nodes.len() <= b.nodes.len()
    &&& a.edges.len() <= b.edges.len()
    &&& forall|i: int| 0 <= i < a.nodes.len() ==> #[trigger] b.nodes[i].id == a.nodes[i].id
    &&& forall|i: int| 0 <= i < a.edges.len() ==> #[trigger] b.edges[i].id == a.edges[i].id
}

/// The label names once `name` is known: added at the end when it is new.
pub open spec fn labels_with(labels: Seq<Seq<char>>, name: Seq<char>) -> Seq<Seq<char>> {
    if labels.contains(name) { labels } else { labels.push(name) }
}

/// The entries that make sure label `name` is known: an `AddLabel` when it is new.
pub open spec fn label_entries(labels: Seq<Seq<char>>, name: Seq<char>) -> Seq<WalEntryV> {
    if labels.contains(name) { Seq::empty() } else { seq![WalEntryV::AddLabel { label: name }] }
}

/// The id of label `name` once it is known.
pub open spec fn label_after(labels: Seq<Seq<char>>, name: Seq<char>) -> usize {
    crate::string_pool::position_of(labels_with(labels, name), name) as usize
}

/// Where creating is: what it logged so far, how many nodes and edges and which labels the
/// graph then has, the last node of the path, the bindings, and the path's elements.
pub struct CreateState {
    pub log: Seq<WalEntryV>,
    pub n: nat,
    pub e: nat,
    pub labels: Seq<Seq<char>>,
    pub cur: usize,
    pub bs: Seq<(Seq<char>, ElemV)>,
    pub elems: Seq<ElemV>,
}

/// Creating the node of pattern `pv`: the node the pattern's variable already names (see
/// `existing_node`) logs nothing; otherwise its label (when new) and a new node are logged and
/// the variable is bound to it. The node becomes the current one.
pub open spec fn node_step(st: CreateState, pv: NodePatternV, row: RowV, fin: GraphV) -> CreateState {
    match existing_node(row, st.bs, pv.variable, st.n) {
        Some(id) => CreateState { cur: id, ..st },
        None => {
            let name = label_or(pv.label, "Node"@);
            let id = st.n as usize;
            CreateState {
                log: st.log + label_entries(st.labels, name).push(WalEntryV::AddNode {
                    id: fin.nodes[st.n as int].id, label: label_after(st.labels, name), properties: pv.properties }),
                n: st.n + 1,
                labels: labels_with(st.labels, name),
                cur: id,
                bs: match pv.variable {
                    Some(v) => st.bs.push((v, ElemV::Node(id))),
                    None => st.bs,
                },
                ..st
            }
        },
    }
}

/// Creating a relationship of pattern `rp` from `start` to the current node: its label (when
/// new) and the edge are logged, and its variable is bound to it.
pub open spec fn rel_step(st: CreateState, rp: RelPatternV, start: usize, fin: GraphV) -> CreateState {
    let name = label_or(rp.label, "Rel"@);
    let r = st.e as usize;
    CreateState {
        log: st.log + label_entries(st.labels, name).push(WalEntryV::AddEdge {
            id: fin.edges[st.e as int].id, start: start, end: st.cur, labels: seq![label_after(st.labels, name)],
            properties: rp.properties }),
        e: st.e + 1,
        labels: labels_with(st.labels, name),
        bs: match rp.variable {
            Some(v) => st.bs.push((v, ElemV::Edge(r))),
            None => st.bs,
        },
        ..st
    }
}

/// Where creating the first `k` steps of path `p` leaves, from state `st0`: the start node, then
/// for each step the next node and the relationship to it.
pub open spec fn path_state(st0: CreateState, p: PathV, row: RowV, fin: GraphV, k: nat) -> CreateState
    decreases k,
{
    if k == 0 {
        let st = node_step(st0, p.start, row, fin);
        CreateState { elems: seq![ElemV::Node(st.cur)], ..st }
    } else {
        let prev = path_state(st0, p, row, fin, (k - 1) as nat);
        let st1 = node_step(prev, p.edges[k - 1].1, row, fin);
        let st2 = rel_step(st1, p.edges[k - 1].0, prev.cur, fin);
        CreateState { elems: prev.elems.push(ElemV::Edge(prev.e as usize)).push(ElemV::Node(st1.cur)), ..st2 }
    }
}

/// Where creating the whole path leaves: its variable, if any, is bound to the path.
pub open spec fn path_done(st0: CreateState, p: PathV, row: RowV, fin: GraphV) -> CreateState {
    let st = path_state(st0, p, row, fin, p.edges.len());
    match p.bound_variable {
        Some(v) => CreateState { bs: st.bs.push((v, ElemV::Path(st.elems))), ..st },
        None => st,
    }
}

/// The state of graph `g` with nothing logged yet, current node `cur` and bindings `bs`.
pub open spec fn state_of(g: GraphV, cur: usize, bs: Seq<(Seq<char>, ElemV)>) -> CreateState {
    CreateState { log: Seq::empty(), n: g.nodes.len(), e: g.edges.len(), labels: g.labels, cur: cur, bs: bs, elems: Seq::empty() }
}

/// Creating a node depends on `fin` only through the id of the node it adds.
proof fn lemma_node_step_fin(st: CreateState, pv: NodePatternV, row: RowV, a: GraphV, b: GraphV)
    requires
        existing_node(row, st.bs, pv.variable, st.n) is None ==> a.nodes[st.n as int].id == b.nodes[st.n as int].id,
    ensures
        node_step(st, pv, row, a) == node_step(st, pv, row, b),
{
}

/// Creating a relationship depends on `fin` only through the id of the edge it adds.
proof fn lemma_rel_step_fin(st: CreateState, rp: RelPatternV, start: usize, a: GraphV, b: GraphV)
    requires
        a.edges[st.e as int].id == b.edges[st.e as int].id,
    ensures
        rel_step(st, rp, start, a) == rel_step(st, rp, start, b),
{
}

/// Creating never lowers the counts of nodes and edges.
proof fn lemma_path_state_grows(st0: CreateState, p: PathV, row: RowV, fin: GraphV, k: nat)
    requires
        k <= p.edges.len(),
    ensures
        st0.n <= path_state(st0, p, row, fin, k).n,
        st0.e <= path_state(st0, p, row, fin, k).e,
        forall|j: nat| j <= k ==> path_state(st0, p, row, fin, j).n <= #[trigger] path_state(st0, p, row, fin, k).n,
        forall|j: nat| j <= k ==> path_state(st0, p, row, fin, j).e <= #[trigger] path_state(st0, p, row, fin, k).e,
    decreases k,
{
    if k > 0 {
        lemma_path_state_grows(st0, p, row, fin, (k - 1) as nat);
    }
}

/// The state after creating a path depends on `fin` only through the ids of the nodes and
/// edges it has then.
proof fn lemma_path_state_fin(st0: CreateState, p: PathV, row: RowV, a: GraphV, b: GraphV, k: nat)
    requires
        k <= p.edges.len(),
        forall|i: int| 0 <= i < path_state(st0, p, row, a, k).n ==> #[trigger] a.nodes[i].id == b.nodes[i].id,
        forall|i: int| 0 <= i < path_state(st0, p, row, a, k).e ==> #[trigger] a.edges[i].id == b.edges[i].id,
    ensures
        path_state(st0, p, row, a, k) == path_state(st0, p, row, b, k),
    decreases k,
{
    if k == 0 {
        let st = node_step(st0, p.start, row, a);
        if existing_node(row, st0.bs, p.start.variable, st0.n) is None {
            assert(a.nodes[st0.n as int].id == b.nodes[st0.n as int].id);
        }
        lemma_node_step_fin(st0, p.start, row, a, b);
    } else {
        let km = (k - 1) as nat;
        lemma_path_state_grows(st0, p, row, a, k);
        let prev = path_state(st0, p, row, a, km);
        assert(prev.n <= path_state(st0, p, row, a, k).n);
        assert(prev.e <= path_state(st0, p, row, a, k).e);
        lemma_path_state_fin(st0, p, row, a, b, km);
        let st1 = node_step(prev, p.edges[k - 1].1, row, a);
        if existing_node(row, prev.bs, p.edges[k - 1].1.variable, prev.n) is None {
            assert(a.nodes[prev.n as int].id == b.nodes[prev.n as int].id);
        }
        lemma_node_step_fin(prev, p.edges[k - 1].1, row, a, b);
        assert(a.edges[st1.e as int].id == b.edges[st1.e as int].id);
        lemma_rel_step_fin(st1, p.edges[k - 1].0, prev.cur, a, b);
    }
}

/// Ids agree below the counts of the graph they were kept from.
proof fn lemma_ids_agree(a: GraphV, b: GraphV, n: nat, e: nat)
    requires
        ids_kept(a, b),
        n <= a.nodes.len(),
        e <= a.edges.len(),
    ensures
        forall|i: int| 0 <= i < n ==> #[trigger] b.nodes[i].id == a.nodes[i].id,
        forall|i: int| 0 <= i < e ==> #[trigger] b.edges[i].id == a.edges[i].id,
{
}

/// Where creating the first `k` paths for one row leaves, from `st0`.
pub open spec fn paths_state(st0: CreateState, ps: Seq<PathV>, row: RowV, fin: GraphV, k: nat) -> CreateState
    decreases k,
{
    if k == 0 {
        st0
    } else {
        path_done(paths_state(st0, ps, row, fin, (k - 1) as nat), ps[k - 1], row, fin)
    }
}

/// Where a `CREATE` of paths `ps` on graph `g` leaves after the first `i` rows (each row starts
/// with no bindings), and the rows it gives for them: each row with what its paths bound.
pub open spec fn create_rows(g: GraphV, ps: Seq<PathV>, rows: Seq<RowV>, fin: GraphV, i: nat) -> (CreateState, Seq<RowV>)
    decreases i,
{
    if i == 0 {
        (state_of(g, 0, Seq::empty()), Seq::empty())
    } else {
        let prev = create_rows(g, ps, rows, fin, (i - 1) as nat);
        let st = paths_state(CreateState { bs: Seq::empty(), ..prev.0 }, ps, rows[i - 1], fin, ps.len());
        (st, prev.1.push(apply_bindings(rows[i - 1], st.bs)))
    }
}

/// Creating a path from a state that logged something logs the same after it.
proof fn lemma_path_state_shift(st: CreateState, p: PathV, row: RowV, fin: GraphV, k: nat)
    requires
        k <= p.edges.len(),
    ensures
        ({
            let a = path_state(st, p, row, fin, k);
            let b = path_state(CreateState { log: Seq::empty(), cur: 0, elems: Seq::empty(), ..st }, p, row, fin, k);
            &&& a.log == st.log + b.log
            &&& a.n == b.n && a.e == b.e && a.labels == b.labels && a.cur == b.cur && a.bs == b.bs && a.elems == b.elems
        }),
    decreases k,
{
    let l = CreateState { log: Seq::empty(), cur: 0, elems: Seq::empty(), ..st };
    if k == 0 {
        let a = node_step(st, p.start, row, fin);
        let b = node_step(l, p.start, row, fin);
        assert(a.log =~= st.log + b.log);
    } else {
        let km = (k - 1) as nat;
        lemma_path_state_shift(st, p, row, fin, km);
        let pa = path_state(st, p, row, fin, km);
        let pb = path_state(l, p, row, fin, km);
        let a1 = node_step(pa, p.edges[k - 1].1, row, fin);
        let b1 = node_step(pb, p.edges[k - 1].1, row, fin);
        assert(a1.log =~= st.log + b1.log);
        let a2 = rel_step(a1, p.edges[k - 1].0, pa.cur, fin);
        let b2 = rel_step(b1, p.edges[k - 1].0, pb.cur, fin);
        assert(a2.log =~= st.log + b2.log);
    }
}

/// Creating a whole path counts nodes and edges up and depends on `fin` only through the ids
/// it then has.
proof fn lemma_path_done_fin(st0: CreateState, p: PathV, row: RowV, a: GraphV, b: GraphV)
    requires
        forall|i: int| 0 <= i < path_done(st0, p, row, a).n ==> #[trigger] a.nodes[i].id == b.nodes[i].id,
        forall|i: int| 0 <= i < path_done(st0, p, row, a).e ==> #[trigger] a.edges[i].id == b.edges[i].id,
    ensures
        path_done(st0, p, row, a) == path_done(st0, p, row, b),
        st0.n <= path_done(st0, p, row, a).n,
        st0.e <= path_done(st0, p, row, a).e,
{
    lemma_path_state_grows(st0, p, row, a, p.edges.len());
    lemma_path_state_fin(st0, p, row, a, b, p.edges.len());
}

/// Creating paths counts nodes and edges up and depends on `fin` only through the ids it then
/// has.
proof fn lemma_paths_state_fin(st0: CreateState, ps: Seq<PathV>, row: RowV, a: GraphV, b: GraphV, k: nat)
    requires
        k <= ps.len(),
        forall|i: int| 0 <= i < paths_state(st0, ps, row, a, k).n ==> #[trigger] a.nodes[i].id == b.nodes[i].id,
        forall|i: int| 0 <= i < paths_state(st0, ps, row, a, k).e ==> #[trigger] a.edges[i].id == b.edges[i].id,
    ensures
        paths_state(st0, ps, row, a, k) == paths_state(st0, ps, row, b, k),
        st0.n <= paths_state(st0, ps, row, a, k).n,
        st0.e <= paths_state(st0, ps, row, a, k).e,
    decreases k,
{
    if k > 0 {
        let km = (k - 1) as nat;
        let prev = paths_state(st0, ps, row, a, km);
        lemma_path_state_grows(prev, ps[k - 1], row, a, ps[k - 1].edges.len());
        lemma_paths_state_fin(st0, ps, row, a, b, km);
        lemma_path_done_fin(prev, ps[k - 1], row, a, b);
    }
}

/// A `CREATE` counts nodes and edges up and depends on `fin` only through the ids it then has.
proof fn lemma_create_rows_fin(g: GraphV, ps: Seq<PathV>, rows: Seq<RowV>, a: GraphV, b: GraphV, i: nat)
    requires
        forall|j: int| 0 <= j < create_rows(g, ps, rows, a, i).0.n ==> #[trigger] a.nodes[j].id == b.nodes[j].id,
        forall|j: int| 0 <= j < create_rows(g, ps, rows, a, i).0.e ==> #[trigger] a.edges[j].id == b.edges[j].id,
    ensures
        create_rows(g, ps, rows, a, i) == create_rows(g, ps, rows, b, i),
        g.nodes.len() <= create_rows(g, ps, rows, a, i).0.n,
        g.edges.len() <= create_rows(g, ps, rows, a, i).0.e,
    decreases i,
{
    if i > 0 {
        let im = (i - 1) as nat;
        let prev = create_rows(g, ps, rows, a, im);
        let st0 = CreateState { bs: Seq::empty(), ..prev.0 };
        lemma_paths_state_fin(st0, ps, rows[i - 1], a, b, ps.len());
        lemma_create_rows_fin(g, ps, rows, a, b, im);
    }
}

/// The mathematical form of a `MERGE` step's paths with their plans.
pub open spec fn planned_view(planned: Seq<(Option<PlanNode>, Path)>) -> Seq<(Option<PlanNode>, PathV)> {
    planned.map_values(|q: (Option<PlanNode>, Path)| (q.0, q.1@))
}

/// One path of a `MERGE` for one row, on the graph `g` redone with what was logged: the rows its
/// plan matches from that row alone (with the path variable bound), or, when it has no plan or
/// they are none, the row with the path created.
pub open spec fn merge_step(g: GraphV, st: CreateState, outs: Seq<RowV>, pl: (Option<PlanNode>, PathV), row: RowV, fin: GraphV)
    -> (CreateState, Seq<RowV>)
{
    let found = match pl.0 {
        Some(plan) => bound_rows(plan_rows(wal_replay(g, st.log), plan, seq![row]), seq![pl.1]),
        None => Seq::empty(),
    };
    if found.len() > 0 {
        (st, outs + found)
    } else {
        let st2 = path_done(CreateState { bs: Seq::empty(), ..st }, pl.1, row, fin);
        (st2, outs.push(apply_bindings(row, st2.bs)))
    }
}

/// The first `k` paths of a `MERGE` for one row.
pub open spec fn merge_paths(g: GraphV, st: CreateState, outs: Seq<RowV>, pls: Seq<(Option<PlanNode>, PathV)>, row: RowV,
    fin: GraphV, k: nat) -> (CreateState, Seq<RowV>)
    decreases k,
{
    if k == 0 {
        (st, outs)
    } else {
        let prev = merge_paths(g, st, outs, pls, row, fin, (k - 1) as nat);
        merge_step(g, prev.0, prev.1, pls[k - 1], row, fin)
    }
}

/// Where a `MERGE` on graph `g` leaves after the first `i` rows, and the rows it gives.
pub open spec fn merge_rows(g: GraphV, pls: Seq<(Option<PlanNode>, PathV)>, rows: Seq<RowV>, fin: GraphV, i: nat)
    -> (CreateState, Seq<RowV>)
    decreases i,
{
    if i == 0 {
        (state_of(g, 0, Seq::empty()), Seq::empty())
    } else {
        let prev = merge_rows(g, pls, rows, fin, (i - 1) as nat);
        merge_paths(g, prev.0, prev.1, pls, rows[i - 1], fin, pls.len())
    }
}

/// A `MERGE` counts nodes and edges up and depends on `fin` only through the ids it then has.
proof fn lemma_merge_paths_fin(g: GraphV, st: CreateState, outs: Seq<RowV>, pls: Seq<(Option<PlanNode>, PathV)>,
    row: RowV, a: GraphV, b: GraphV, k: nat)
    requires
        k <= pls.len(),
        forall|j: int| 0 <= j < merge_paths(g, st, outs, pls, row, a, k).0.n ==> #[trigger] a.nodes[j].id == b.nodes[j].id,
        forall|j: int| 0 <= j < merge_paths(g, st, outs, pls, row, a, k).0.e ==> #[trigger] a.edges[j].id == b.edges[j].id,
    ensures
        merge_paths(g, st, outs, pls, row, a, k) == merge_paths(g, st, outs, pls, row, b, k),
        st.n <= merge_paths(g, st, outs, pls, row, a, k).0.n,
        st.e <= merge_paths(g, st, outs, pls, row, a, k).0.e,
    decreases k,
{
    if k > 0 {
        let km = (k - 1) as nat;
        let prev = merge_paths(g, st, outs, pls, row, a, km);
        let pst = CreateState { bs: Seq::empty(), ..prev.0 };
        lemma_path_state_grows(pst, pls[k - 1].1, row, a, pls[k - 1].1.edges.len());
        lemma_merge_paths_fin(g, st, outs, pls, row, a, b, km);
        let found = match pls[k - 1].0 {
            Some(plan) => bound_rows(plan_rows(wal_replay(g, prev.0.log), plan, seq![row]), seq![pls[k - 1].1]),
            None => Seq::empty(),
        };
        if found.len() == 0 {
            lemma_path_done_fin(pst, pls[k - 1].1, row, a, b);
        }
    }
}

/// A `MERGE` counts nodes and edges up and depends on `fin` only through the ids it then has.
proof fn lemma_merge_rows_fin(g: GraphV, pls: Seq<(Option<PlanNode>, PathV)>, rows: Seq<RowV>, a: GraphV, b: GraphV, i: nat)
    requires
        forall|j: int| 0 <= j < merge_rows(g, pls, rows, a, i).0.n ==> #[trigger] a.nodes[j].id == b.nodes[j].id,
        forall|j: int| 0 <= j < merge_rows(g, pls, rows, a, i).0.e ==> #[trigger] a.edges[j].id == b.edges[j].id,
    ensures
        merge_rows(g, pls, rows, a, i) == merge_rows(g, pls, rows, b, i),
        g.nodes.len() <= merge_rows(g, pls, rows, a, i).0.n,
        g.edges.len() <= merge_rows(g, pls, rows, a, i).0.e,
    decreases i,
{
    if i > 0 {
        let im = (i - 1) as nat;
        let prev = merge_rows(g, pls, rows, a, im);
        lemma_merge_paths_fin(g, prev.0, prev.1, pls, rows[i - 1], a, b, pls.len());
        lemma_merge_rows_fin(g, pls, rows, a, b, im);
    }
}

/// What one path of a `MERGE` adds to the profile: the profile of its plan, if it has one, run
/// on the row alone.
pub open spec fn merge_step_profile(g: GraphV, st: CreateState, pl: (Option<PlanNode>, PathV), row: RowV) -> Seq<char> {
    match pl.0 {
        Some(plan) => plan_profile(wal_replay(g, st.log), plan, seq![row], 0, 0, None),
        None => Seq::empty(),
    }
}

/// What the first `k` paths of a `MERGE` for one row add to the profile.
pub open spec fn merge_paths_profile(g: GraphV, st: CreateState, outs: Seq<RowV>, pls: Seq<(Option<PlanNode>, PathV)>,
    row: RowV, fin: GraphV, k: nat) -> Seq<char>
    decreases k,
{
    if k == 0 {
        Seq::empty()
    } else {
        let prev = merge_paths(g, st, outs, pls, row, fin, (k - 1) as nat);
        merge_paths_profile(g, st, outs, pls, row, fin, (k - 1) as nat) + merge_step_profile(g, prev.0, pls[k - 1], row)
    }
}

/// What a `MERGE` adds to the profile for the first `i` rows.
pub open spec fn merge_rows_profile(g: GraphV, pls: Seq<(Option<PlanNode>, PathV)>, rows: Seq<RowV>, fin: GraphV, i: nat)
    -> Seq<char>
    decreases i,
{
    if i == 0 {
        Seq::empty()
    } else {
        let prev = merge_rows(g, pls, rows, fin, (i - 1) as nat);
        merge_rows_profile(g, pls, rows, fin, (i - 1) as nat) + merge_paths_profile(g, prev.0, prev.1, pls, rows[i - 1], fin, pls.len())
    }
}

/// The profile of a `MERGE` for one row depends on `fin` only through the ids it then has.
proof fn lemma_merge_paths_profile_fin(g: GraphV, st: CreateState, outs: Seq<RowV>, pls: Seq<(Option<PlanNode>, PathV)>,
    row: RowV, a: GraphV, b: GraphV, k: nat)
    requires
        k <= pls.len(),
        forall|j: int| 0 <= j < merge_paths(g, st, outs, pls, row, a, k).0.n ==> #[trigger] a.nodes[j].id == b.nodes[j].id,
        forall|j: int| 0 <= j < merge_paths(g, st, outs, pls, row, a, k).0.e ==> #[trigger] a.edges[j].id == b.edges[j].id,
    ensures
        merge_paths_profile(g, st, outs, pls, row, a, k) == merge_paths_profile(g, st, outs, pls, row, b, k),
    decreases k,
{
    if k > 0 {
        let km = (k - 1) as nat;
        let prev = merge_paths(g, st, outs, pls, row, a, km);
        let pst = CreateState { bs: Seq::empty(), ..prev.0 };
        lemma_path_state_grows(pst, pls[k - 1].1, row, a, pls[k - 1].1.edges.len());
        lemma_merge_paths_fin(g, st, outs, pls, row, a, b, km);
        lemma_merge_paths_profile_fin(g, st, outs, pls, row, a, b, km);
    }
}

/// The profile of a `MERGE` depends on `fin` only through the ids it then has.
proof fn lemma_merge_rows_profile_fin(g: GraphV, pls: Seq<(Option<PlanNode>, PathV)>, rows: Seq<RowV>, a: GraphV, b: GraphV, i: nat)
    requires
        forall|j: int| 0 <= j < merge_rows(g, pls, rows, a, i).0.n ==> #[trigger] a.nodes[j].id == b.nodes[j].id,
        forall|j: int| 0 <= j < merge_rows(g, pls, rows, a, i).0.e ==> #[trigger] a.edges[j].id == b.edges[j].id,
    ensures
        merge_rows_profile(g, pls, rows, a, i) == merge_rows_profile(g, pls, rows, b, i),
    decreases i,
{
    if i > 0 {
        let im = (i - 1) as nat;
        let prev = merge_rows(g, pls, rows, a, im);
        lemma_merge_paths_fin(g, prev.0, prev.1, pls, rows[i - 1], a, b, pls.len());
        lemma_merge_rows_fin(g, pls, rows, a, b, im);
        lemma_merge_rows_profile_fin(g, pls, rows, a, b, im);
        lemma_merge_paths_profile_fin(g, prev.0, prev.1, pls, rows[i - 1], a, b, pls.len());
    }
}

// ---------------------------------------------------------------------------------------------
// Creating nodes and relationships.

/// The first binding of `var` to a node below `n`, among bindings `bs`.
pub open spec fn first_node_binding(bs: Seq<(Seq<char>, ElemV)>, var: Seq<char>, n: nat) -> Option<usize>
    decreases bs.len(),
{
    if bs.len() == 0 {
        None
    } else {
        match first_node_binding(bs.drop_last(), var, n) {
            Some(id) => Some(id),
            None => {
                let b = bs.last();
                if b.0 == var && b.1 is Node && b.1->Node_0 < n { Some(b.1->Node_0) } else { None }
            },
        }
    }
}

/// The node a pattern's variable already names: the one the row binds it to, else the first
/// one bound to it while creating (only nodes below `n`, those that exist).
pub open spec fn existing_node(row: RowV, bs: Seq<(Seq<char>, ElemV)>, var: Option<Seq<char>>, n: nat) -> Option<usize> {
    match var {
        Some(v) => match bound_node(row, Some(v)) {
            Some(id) => if id < n { Some(id) } else { first_node_binding(bs, v, n) },
            None => first_node_binding(bs, v, n),
        },
        None => None,
    }
}

/// The label a created element gets: the pattern's, else `default`.
pub open spec fn label_or(label: Option<Seq<char>>, default: Seq<char>) -> Seq<char> {
    match label {
        Some(l) => l,
        None => default,
    }
}

/// A node binding found among the first bindings is the first one among all of them.
pub proof fn lemma_first_binding_prefix(bs: Seq<(Seq<char>, ElemV)>, var: Seq<char>, n: nat, i: int)
    requires
        0 <= i <= bs.len(),
        first_node_binding(bs.subrange(0, i), var, n) is Some,
    ensures
        first_node_binding(bs, var, n) == first_node_binding(bs.subrange(0, i), var, n),
    decreases bs.len() - i,
{
    if i == bs.len() {
        assert(bs.subrange(0, i) =~= bs);
    } else {
        assert(bs.drop_last().subrange(0, i) =~= bs.subrange(0, i));
        lemma_first_binding_prefix(bs.drop_last(), var, n, i);
    }
}

impl Graph {
    /// The id of the label name, which is added (and logged) if the graph does not know it.
    pub(crate) fn label_logged(&mut self, name: &str) -> (id: usize)
        requires
            old(self).wf(),
        ensures
            final(self).wf(),
            redoes(*old(self), *final(self)),
            final(self)@ == g_add_label(old(self)@, name@),
            label_id_of(final(self)@, name@) == Some(id),
            logged_since(*old(self), *final(self)) == label_entries(old(self)@.labels, name@),
            old(self)@.nodes == final(self)@.nodes,
            old(self)@.edges == final(self)@.edges,
            old(self).nodes == final(self).nodes,
            old(self).edges == final(self).edges,
    {
        let ghost before = *self;
        let id = self.get_or_add_label(name);
        proof {
            lemma_logged_since_refl(before);
            if before@.labels.contains(name@) {
                lemma_redoes_refl(before);
                assert(self.wal@ == before.wal@);
            } else {
                lemma_logged_redoes(before, *self, crate::graph::types::WalEntryV::AddLabel { label: name@ });
                lemma_redoes_refl(before);
                lemma_logged_since_push(before, before, *self, crate::graph::types::WalEntryV::AddLabel { label: name@ });
                assert(Seq::<WalEntryV>::empty().push(WalEntryV::AddLabel { label: name@ }) =~= label_entries(before@.labels, name@));
            }
            self.labels.lemma_unique();
            let fl = self@.labels;
            if before@.labels.contains(name@) {
                let k = choose|k: int| 0 <= k < before@.labels.len() && before@.labels[k] == name@;
                assert(crate::string_pool::interned_at(before@.labels, name@, k));
            }
            assert(crate::string_pool::interned_at(fl, name@, id as int));
            let j = crate::string_pool::position_of(fl, name@);
            assert(crate::string_pool::interned_at(fl, name@, j));
        }
        id
    }

    /// The first node bound to `var` among the bindings (see `first_node_binding`).
    fn node_in_bindings(&self, bindings: &Vec<(String, GraphElement)>, var: &String) -> (r: Option<usize>)
        ensures
            r == first_node_binding(bindings_view(bindings@), var@, self@.nodes.len()),
            r matches Some(id) ==> id < self@.nodes.len(),
    {
        let ghost bv = bindings_view(bindings@);
        let mut i: usize = 0;
        while i < bindings.len()
            invariant
                i <= bindings@.len(),
                bv == bindings_view(bindings@),
                first_node_binding(bv.subrange(0, i as int), var@, self@.nodes.len()) is None,
            decreases bindings@.len() - i,
        {
            proof {
                assert(bv.subrange(0, i as int + 1).drop_last() =~= bv.subrange(0, i as int));
                assert(bv[i as int] == (bindings@[i as int].0@, bindings@[i as int].1@));
            }
            if crate::keyed::str_eq(bindings[i].0.as_str(), var.as_str()) {
                match &bindings[i].1 {
                    GraphElement::Node(id) => {
                        if *id < self.nodes.len() {
                            proof { lemma_first_binding_prefix(bv, var@, self@.nodes.len(), i as int + 1); }
                            return Some(*id);
                        }
                    },
                    _ => {},
                }
            }
            i = i + 1;
        }
        assert(bv.subrange(0, i as int) =~= bv);
        None
    }

    /// The node for a node pattern while creating: the node its variable already names (see
    /// `existing_node`), else a new node with the pattern's label (`Node` when it has none) and
    /// properties, whose variable (if any) is then bound to it.
    pub fn create_node(&mut self, pattern: &NodePattern, in_res: &ResultSet, row_idx: usize,
        bindings: &mut Vec<(String, GraphElement)>) -> (r: usize)
        requires
            old(self).wf(),
            pattern.properties.wf(),
            in_res.wf(),
            row_idx < in_res@.rows.len(),
        ensures
            final(self).wf(),
            redoes(*old(self), *final(self)),
            r < final(self)@.nodes.len(),
            old(self)@.nodes.len() <= final(self)@.nodes.len(),
            old(bindings)@.len() <= final(bindings)@.len(),
            final(bindings)@.subrange(0, old(bindings)@.len() as int) == old(bindings)@,
            ids_kept(old(self)@, final(self)@),
            ({
                let st = node_step(state_of(old(self)@, 0, bindings_view(old(bindings)@)), pattern@,
                    in_res@.rows[row_idx as int], final(self)@);
                &&& logged_since(*old(self), *final(self)) == st.log
                &&& final(self)@.nodes.len() == st.n
                &&& final(self)@.edges.len() == old(self)@.edges.len()
                &&& final(self)@.labels == st.labels
                &&& r == st.cur
                &&& bindings_view(final(bindings)@) == st.bs
            }),
            match existing_node(in_res@.rows[row_idx as int], bindings_view(old(bindings)@), opt_str_view(pattern.variable),
                old(self)@.nodes.len()) {
                Some(id) => r == id && *final(self) == *old(self) && final(bindings)@ == old(bindings)@,
                None => {
                    &&& r == old(self)@.nodes.len()
                    &&& final(self)@.nodes.len() == r + 1
                    &&& final(self)@.nodes[r as int].properties == pattern.properties@
                    &&& label_id_of(final(self)@, label_or(opt_str_view(pattern.label), "Node"@)) == Some(final(self)@.nodes[r as int].labels[0])
                    &&& final(self)@.nodes[r as int].labels.len() == 1
                    &&& bindings_view(final(bindings)@) == bindings_view(old(bindings)@) + match opt_str_view(pattern.variable) {
                        Some(v) => seq![(v, ElemV::Node(r))],
                        None => Seq::empty(),
                    }
                },
            },
    {
        let ghost row = in_res@.rows[row_idx as int];
        match &pattern.variable {
            Some(var) => {
                match in_res.get(row_idx, var.as_str()) {
                    Some(GraphElement::Node(id)) => {
                        if *id < self.nodes.len() {
                            proof {
                                lemma_redoes_refl(*self);
                                lemma_logged_since_refl(*self);
                                assert(bindings@.subrange(0, old(bindings)@.len() as int) =~= old(bindings)@);
                            }
                            return *id;
                        }
                    },
                    _ => {},
                }
                match self.node_in_bindings(bindings, var) {
                    Some(id) => {
                        proof {
                            lemma_redoes_refl(*self);
                            lemma_logged_since_refl(*self);
                            assert(bindings@.subrange(0, old(bindings)@.len() as int) =~= old(bindings)@);
                        }
                        return id;
                    },
                    None => {},
                }
            },
            None => {},
        }
        let ghost g0 = *self;
        let lid = match &pattern.label {
            Some(l) => self.label_logged(l.as_str()),
            None => {
                proof { reveal_strlit("Node"); }
                self.label_logged("Node")
            },
        };
        let ghost g1 = *self;
        let r = self.log_new_node(lid, pattern.properties.copy());
        proof {
            let en = crate::graph::types::WalEntryV::AddNode {
                id: self@.nodes[r as int].id, label: lid, properties: pattern.properties@ };
            lemma_logged_redoes(g1, *self, en);
            lemma_logged_since_push(g0, g1, *self, en);
            lemma_redoes_trans(g0, g1, *self);
            assert(self@.labels == g1@.labels);
            assert(label_after(g0@.labels, label_or(pattern@.label, "Node"@)) == lid);
        }
        match &pattern.variable {
            Some(var) => {
                bindings.push((crate::text::copy_string(var), GraphElement::Node(r)));
                proof {
                    crate::graph::element::lemma_elem_pairs_view(bindings@);
                    assert(bindings_view(bindings@) =~= bindings_view(old(bindings)@) + seq![(var@, ElemV::Node(r))]);
                    assert(bindings@.subrange(0, old(bindings)@.len() as int) =~= old(bindings)@);
                }
            },
            None => {
                assert(bindings_view(bindings@) =~= bindings_view(old(bindings)@) + Seq::<(Seq<char>, ElemV)>::empty());
                assert(bindings@.subrange(0, old(bindings)@.len() as int) =~= old(bindings)@);
            },
        }
        r
    }
}

impl Graph {
    /// A new relationship from `start` to `end` with the pattern's label (`Rel` when it has
    /// none) and properties.
    pub fn create_rel(&mut self, pattern: &RelPattern, start: usize, end: usize) -> (r: usize)
        requires
            old(self).wf(),
            pattern.properties.wf(),
            start < old(self)@.nodes.len(),
            end < old(self)@.nodes.len(),
        ensures
            final(self).wf(),
            redoes(*old(self), *final(self)),
            r == old(self)@.edges.len(),
            final(self)@.edges.len() == r + 1,
            final(self)@.nodes.len() == old(self)@.nodes.len(),
            final(self)@.edges[r as int].start == start,
            final(self)@.edges[r as int].end == end,
            final(self)@.edges[r as int].properties == pattern.properties@,
            final(self)@.edges[r as int].labels.len() == 1,
            label_id_of(final(self)@, label_or(opt_str_view(pattern.label), "Rel"@)) == Some(final(self)@.edges[r as int].labels[0]),
            ids_kept(old(self)@, final(self)@),
            ({
                let st = rel_step(state_of(old(self)@, end, Seq::empty()), pattern@, start, final(self)@);
                &&& logged_since(*old(self), *final(self)) == st.log
                &&& final(self)@.labels == st.labels
            }),
    {
        let ghost g0 = *self;
        let lid = match &pattern.label {
            Some(l) => self.label_logged(l.as_str()),
            None => self.label_logged("Rel"),
        };
        let ghost g1 = *self;
        let labels = vec![lid];
        let ghost lv = labels@;
        assert(lv == seq![lid]);
        let r = self.log_new_edge(start, end, labels, pattern.properties.copy());
        proof {
            let en = crate::graph::types::WalEntryV::AddEdge {
                id: self@.edges[r as int].id, start: start, end: end, labels: lv, properties: pattern.properties@ };
            lemma_logged_redoes(g1, *self, en);
            lemma_logged_since_push(g0, g1, *self, en);
            lemma_redoes_trans(g0, g1, *self);
            assert(label_after(g0@.labels, label_or(pattern@.label, "Rel"@)) == lid);
            assert forall|i: int| 0 <= i < g0@.nodes.len() implies #[trigger] self@.nodes[i].id == g0@.nodes[i].id by {
                assert(g1@.nodes[i] == g0@.nodes[i]);
            }
        }
        r
    }

    /// Creates a path for row `row_idx`: its start node and, step by step, each next node and
    /// the relationship to it (see `create_node`, `create_rel`); binds the relationships' variables
    /// and, last, the path's own variable to the nodes and relationships in order (see
    /// `path_done`).
    pub fn execute_create_path(&mut self, path: &Path, in_res: &ResultSet, row_idx: usize,
        bindings: &mut Vec<(String, GraphElement)>)
        requires
            old(self).wf(),
            crate::parser::grammar::path_wf(*path),
            in_res.wf(),
            row_idx < in_res@.rows.len(),
        ensures
            final(self).wf(),
            redoes(*old(self), *final(self)),
            ids_kept(old(self)@, final(self)@),
            old(bindings)@.len() <= final(bindings)@.len(),
            final(bindings)@.subrange(0, old(bindings)@.len() as int) == old(bindings)@,
            ({
                let st = path_done(state_of(old(self)@, 0, bindings_view(old(bindings)@)), path@,
                    in_res@.rows[row_idx as int], final(self)@);
                &&& logged_since(*old(self), *final(self)) == st.log
                &&& final(self)@.nodes.len() == st.n
                &&& final(self)@.edges.len() == st.e
                &&& final(self)@.labels == st.labels
                &&& bindings_view(final(bindings)@) == st.bs
            }),
    {
        let ghost g0 = *self;
        let ghost row = in_res@.rows[row_idx as int];
        let ghost pv = path@;
        let ghost s0 = state_of(g0@, 0, bindings_view(old(bindings)@));
        let mut elements: Vec<GraphElement> = Vec::new();
        let start = self.create_node(&path.start, in_res, row_idx, bindings);
        elements.push(GraphElement::Node(start));
        proof {
            lemma_elems_view(elements@);
            assert(elems_view(elements@) =~= path_state(s0, pv, row, self@, 0).elems);
            assert(path_state(s0, pv, row, self@, 0).log =~= logged_since(g0, *self));
        }
        let mut current = start;
        let n = path.edges.len();
        let mut k: usize = 0;
        while k < n
            invariant
                self.wf(),
                redoes(g0, *self),
                ids_kept(g0@, self@),
                crate::parser::grammar::path_wf(*path),
                in_res.wf(),
                row_idx < in_res@.rows.len(),
                row == in_res@.rows[row_idx as int],
                pv == path@,
                s0 == state_of(g0@, 0, bindings_view(old(bindings)@)),
                n == pv.edges.len(),
                k <= n,
                current < self@.nodes.len(),
                old(bindings)@.len() <= bindings@.len(),
                bindings@.subrange(0, old(bindings)@.len() as int) == old(bindings)@,
                ({
                    let st = path_state(s0, pv, row, self@, k as nat);
                    &&& logged_since(g0, *self) == st.log
                    &&& self@.nodes.len() == st.n
                    &&& self@.edges.len() == st.e
                    &&& self@.labels == st.labels
                    &&& current == st.cur
                    &&& bindings_view(bindings@) == st.bs
                    &&& elems_view(elements@) == st.elems
                }),
            decreases n - k,
        {
            let ghost s1 = *self;
            let ghost st = path_state(s0, pv, row, s1@, k as nat);
            let ghost b1 = bindings@;
            let next = self.create_node(&path.edges[k].1, in_res, row_idx, bindings);
            let ghost s2 = *self;
            let ghost b2 = bindings@;
            let rel = self.create_rel(&path.edges[k].0, current, next);
            proof {
                assert(path.edges@[k as int].1@ == pv.edges[k as int].1);
                assert(path.edges@[k as int].0@ == pv.edges[k as int].0);
                lemma_redoes_trans(g0, s1, s2);
                lemma_redoes_trans(g0, s2, *self);
                lemma_logged_since_concat(g0, s1, s2);
                lemma_logged_since_concat(g0, s2, *self);
                assert(bindings@.subrange(0, old(bindings)@.len() as int) =~= bindings@.subrange(0, b1.len() as int).subrange(0, old(bindings)@.len() as int));
            }
            let ghost e0 = elements@;
            elements.push(GraphElement::Edge(rel));
            elements.push(GraphElement::Node(next));
            proof {
                lemma_elems_view(e0);
                lemma_elems_view(elements@);
                assert(elems_view(elements@) =~= elems_view(e0).push(ElemV::Edge(rel)).push(ElemV::Node(next)));
            }
            match &path.edges[k].0.variable {
                Some(v) => {
                    let ghost b3 = bindings@;
                    bindings.push((crate::text::copy_string(v), GraphElement::Edge(rel)));
                    proof {
                        crate::graph::element::lemma_elem_pairs_view(bindings@);
                        assert(bindings@.subrange(0, old(bindings)@.len() as int) =~= b3.subrange(0, old(bindings)@.len() as int));
                    }
                },
                None => {},
            }
            proof {
                let s3 = *self;
                // The state so far reads the same with the final ids.
                lemma_ids_agree(s1@, s3@, st.n, st.e);
                lemma_path_state_fin(s0, pv, row, s1@, s3@, k as nat);
                let np = pv.edges[k as int].1;
                let rp = pv.edges[k as int].0;
                let l2 = node_step(state_of(s1@, 0, st.bs), np, row, s2@);
                let lr = rel_step(state_of(s2@, next, Seq::empty()), rp, st.cur, s3@);
                if existing_node(row, st.bs, np.variable, st.n) is None {
                    assert(s3@.nodes[st.n as int].id == s2@.nodes[st.n as int].id);
                }
                lemma_node_step_fin(st, np, row, s2@, s3@);
                let st1 = node_step(st, np, row, s3@);
                assert(st1.log =~= st.log + l2.log);
                assert(st1.n == l2.n && st1.labels == l2.labels && st1.cur == l2.cur && st1.bs == l2.bs);
                assert(next == st1.cur);
                let st2 = rel_step(st1, rp, st.cur, s3@);
                assert(st2.log =~= st1.log + lr.log);
                assert(rel == st1.e);
                assert(st1.e == st.e);
                let fin = path_state(s0, pv, row, s3@, k as nat + 1);
                assert(fin.log =~= logged_since(g0, s3));
                assert(elems_view(elements@) =~= fin.elems);
                crate::graph::element::lemma_elem_pairs_view(bindings@);
                assert(bindings_view(bindings@) =~= fin.bs);
            }
            current = next;
            k = k + 1;
        }
        match &path.bound_variable {
            Some(bv) => {
                let ghost b2 = bindings@;
                proof { lemma_elems_view(elements@); }
                bindings.push((crate::text::copy_string(bv), GraphElement::Path(elements)));
                proof {
                    crate::graph::element::lemma_elem_pairs_view(bindings@);
                    assert(bindings@.subrange(0, old(bindings)@.len() as int) =~= b2.subrange(0, old(bindings)@.len() as int));
                    assert(bindings_view(bindings@) =~= path_done(s0, pv, row, self@).bs);
                }
            },
            None => {},
        }
    }
}

// ---------------------------------------------------------------------------------------------
// Matching.

/// At most `limit` rows when one is given, but at least one: the filter keeps a row before it
/// checks the count.
pub open spec fn filter_cap(s: Seq<RowV>, limit: Option<usize>) -> Seq<RowV> {
    match limit {
        None => s,
        Some(l) => {
            let m: int = if l == 0 { 1 } else { l as int };
            if s.len() <= m { s } else { s.subrange(0, m) }
        },
    }
}

/// The first `limit` rows, when one is given.
pub open spec fn cap(s: Seq<RowV>, limit: Option<usize>) -> Seq<RowV> {
    match limit {
        None => s,
        Some(l) => if s.len() <= l { s } else { s.subrange(0, l as int) },
    }
}

/// The rows for which the condition holds.
pub open spec fn holding(g: Graph, c: CondV) -> spec_fn(RowV) -> bool {
    |r: RowV| cond_holds(g.nodes@, g.edges@, r, c)
}

/// The rows a `MATCH` step gives: the plan's rows for the input rows (limited when there is no
/// condition), with the path variables bound; then those for which the condition holds, or the
/// first `limit` of them.
pub open spec fn match_result(g: Graph, plan: PlanNode, paths: Seq<PathV>, cond: Option<CondV>, limit: Option<usize>,
    rows: Seq<RowV>) -> Seq<RowV> {
    let lim = if cond is None { limit } else { None };
    let found = bound_rows(limited(Seq::empty(), plan_rows(g@, plan, rows), lim), paths);
    match cond {
        Some(c) => filter_cap(found.filter(holding(g, c)), limit),
        None => cap(found, limit),
    }
}

impl Graph {
    /// Runs a `MATCH` step on the rows (see `match_result`).
    pub fn run_match(&self, plan: &PlanNode, paths: &Vec<Path>, cond: &Option<Condition>, limit: Option<usize>,
        rs: &ResultSet, profile: &mut Option<String>) -> (out: ResultSet)
        requires
            self.wf(),
            plan_wf(*plan),
            rs.wf(),
        ensures
            out.wf(),
            out@.rows == match_result(*self, *plan, paths_view(paths@), opt_cond_view(*cond), limit, rs@.rows),
            profile_adds(*old(profile), *final(profile), plan_profile(self@, *plan, rs@.rows, 0, 0,
                match cond { Some(_) => None, None => limit })),
    {
        let mut found = ResultSet::new();
        let lim = match cond {
            Some(_) => None,
            None => limit,
        };
        let ghost f0 = found@;
        self.execute_plan_and_bind_paths(plan, paths, rs, &mut found, profile, lim);
        let ghost all = bound_rows(limited(Seq::empty(), plan_rows(self@, *plan, rs@.rows), lim), paths_view(paths@));
        proof {
            let l0 = limited(f0.rows, plan_rows(self@, *plan, rs@.rows), lim);
            assert(f0.rows =~= Seq::<RowV>::empty());
            assert(l0.subrange(0, l0.len() as int) =~= l0);
            assert(found@.rows =~= all);
        }
        match cond {
            Some(c) => {
                let ghost p = holding(*self, c@);
                let mut filtered = ResultSet::new();
                let empty: Vec<(String, GraphElement)> = Vec::new();
                let n = found.rows();
                assert(all.subrange(0, n as int) =~= all);
                let mut i: usize = 0;
                while i < n
                    invariant_except_break
                        self.wf(),
                        found.wf(),
                        filtered.wf(),
                        found@.rows == all,
                        p == holding(*self, c@),
                        empty@.len() == 0,
                        n == all.len(),
                        all.subrange(0, n as int) == all,
                        i <= n,
                        filtered@.rows == all.subrange(0, i as int).filter(p),
                        limit matches Some(l) ==> filtered@.rows.len() < (if l == 0 { 1 } else { l as int }),
                    ensures
                        filtered.wf(),
                        filtered@.rows == filter_cap(all.filter(p), limit),
                    decreases n - i,
                {
                    proof { lemma_filter_rows_step(all, i as int, p); }
                    if self.evaluate_condition(c, &found, i) {
                        filtered.push_row_from(&found, i, &empty);
                        proof {
                            assert(crate::graph::result_set::bindings_view(empty@) =~= Seq::<(Seq<char>, ElemV)>::empty());
                        }
                        match limit {
                            Some(l) => {
                                if filtered.rows() >= l {
                                    proof { lemma_filter_cap_prefix(all, p, i as int + 1, l); }
                                    break;
                                }
                            },
                            None => {},
                        }
                    }
                    i = i + 1;
                }
                proof {
                    if i == n {
                        assert(all.subrange(0, n as int) =~= all);
                    }
                }
                filtered
            },
            None => {
                match limit {
                    Some(l) => found.truncate(l),
                    None => {},
                }
                found
            },
        }
    }
}

/// Filtering a list of rows, one element more.
proof fn lemma_filter_rows_step(s: Seq<RowV>, i: int, pred: spec_fn(RowV) -> bool)
    requires
        0 <= i < s.len(),
    ensures
        s.subrange(0, i + 1).filter(pred) == if pred(s[i]) { s.subrange(0, i).filter(pred).push(s[i]) } else { s.subrange(0, i).filter(pred) },
{
    assert(s.subrange(0, i + 1) =~= s.subrange(0, i).push(s[i]));
    s.subrange(0, i).lemma_filter_push(s[i], pred);
}

/// When the rows of a prefix that pass the filter reach the cap, they are the capped filter.
proof fn lemma_filter_cap_prefix(s: Seq<RowV>, pred: spec_fn(RowV) -> bool, k: int, l: usize)
    requires
        0 <= k <= s.len(),
        s.subrange(0, k).filter(pred).len() == (if l == 0 { 1 } else { l as int }),
    ensures
        s.subrange(0, k).filter(pred) == filter_cap(s.filter(pred), Some(l)),
{
    assert(s =~= s.subrange(0, k) + s.subrange(k, s.len() as int));
    Seq::filter_distributes_over_add(s.subrange(0, k), s.subrange(k, s.len() as int), pred);
    let a = s.subrange(0, k).filter(pred);
    let b = s.subrange(k, s.len() as int).filter(pred);
    assert((a + b).subrange(0, a.len() as int) =~= a);
}

// ---------------------------------------------------------------------------------------------
// Unwinding lists.

/// The rows one item unwinds a row into: for a variable bound to a list, the row with the
/// variable bound to each member in turn; nothing otherwise.
pub open spec fn unwind_item(row: RowV, item: ItemV) -> Seq<RowV> {
    match item {
        ItemV::Variable(v) => if row.contains_key(v) && row[v] is List {
            row[v]->List_0.map_values(|x: ElemV| apply_bindings(row, seq![(v, x)]))
        } else {
            Seq::empty()
        },
        _ => Seq::empty(),
    }
}

/// The rows the items unwind a row into, item by item.
pub open spec fn unwind_items(row: RowV, items: Seq<ItemV>) -> Seq<RowV>
    decreases items.len(),
{
    if items.len() == 0 { Seq::empty() } else { unwind_items(row, items.drop_last()) + unwind_item(row, items.last()) }
}

/// The rows an `UNWIND` step gives, row by row.
pub open spec fn unwind_rows(rows: Seq<RowV>, items: Seq<ItemV>) -> Seq<RowV>
    decreases rows.len(),
{
    if rows.len() == 0 { Seq::empty() } else { unwind_rows(rows.drop_last(), items) + unwind_items(rows.last(), items) }
}

/// Runs an `UNWIND` step on the rows (see `unwind_rows`).
pub fn run_unwind(items: &Vec<ProjectionItem>, rs: &ResultSet) -> (out: ResultSet)
    requires
        rs.wf(),
    ensures
        out.wf(),
        out@.rows == unwind_rows(rs@.rows, items_view(items@)),
{
    let ghost rows = rs@.rows;
    let ghost iv = items_view(items@);
    let mut out = ResultSet::new();
    let n = rs.rows();
    let mut i: usize = 0;
    while i < n
        invariant
            rs.wf(),
            out.wf(),
            rows == rs@.rows,
            iv == items_view(items@),
            n == rows.len(),
            i <= n,
            out@.rows == unwind_rows(rows.subrange(0, i as int), iv),
        decreases n - i,
    {
        let ghost base = out@.rows;
        let ghost row = rows[i as int];
        let mut j: usize = 0;
        while j < items.len()
            invariant
                rs.wf(),
                out.wf(),
                rows == rs@.rows,
                iv == items_view(items@),
                n == rows.len(),
                i < n,
                row == rows[i as int],
                j <= items@.len(),
                out@.rows == base + unwind_items(row, iv.subrange(0, j as int)),
            decreases items@.len() - j,
        {
            let ghost before = out@.rows;
            match &items[j] {
                ProjectionItem::Variable(var) => {
                    match rs.get(i, var.as_str()) {
                        Some(GraphElement::List(es)) => {
                            proof { lemma_elems_view(es@); }
                            let ghost ev = elems_view(es@);
                            let mut k: usize = 0;
                            while k < es.len()
                                invariant
                                    rs.wf(),
                                    out.wf(),
                                    i < n,
                                    n == rs@.rows.len(),
                                    row == rs@.rows[i as int],
                                    row.contains_key(var@),
                                    row[var@] == ElemV::List(ev),
                                    ev == elems_view(es@),
                                    ev.len() == es@.len(),
                                    forall|q: int| 0 <= q < es@.len() ==> #[trigger] ev[q] == es@[q]@,
                                    k <= es@.len(),
                                    out@.rows == before + ev.subrange(0, k as int).map_values(|x: ElemV| apply_bindings(row, seq![(var@, x)])),
                                decreases es@.len() - k,
                            {
                                let b = vec![(crate::text::copy_string(var), es[k].copy())];
                                let ghost bv = crate::graph::result_set::bindings_view(b@);
                                assert(bv =~= seq![(var@, ev[k as int])]);
                                out.push_row_from(rs, i, &b);
                                assert(ev.subrange(0, k as int + 1).map_values(|x: ElemV| apply_bindings(row, seq![(var@, x)]))
                                    =~= ev.subrange(0, k as int).map_values(|x: ElemV| apply_bindings(row, seq![(var@, x)]))
                                        .push(apply_bindings(row, seq![(var@, ev[k as int])])));
                                k = k + 1;
                            }
                            assert(ev.subrange(0, es@.len() as int) =~= ev);
                            assert(unwind_item(row, iv[j as int]) == ev.map_values(|x: ElemV| apply_bindings(row, seq![(var@, x)])));
                        },
                        _ => {
                            assert(unwind_item(row, iv[j as int]) =~= Seq::<RowV>::empty());
                            assert(before + Seq::<RowV>::empty() =~= before);
                        },
                    }
                },
                _ => {
                    assert(unwind_item(row, iv[j as int]) =~= Seq::<RowV>::empty());
                    assert(before + Seq::<RowV>::empty() =~= before);
                },
            }
            proof {
                assert(iv.subrange(0, j as int + 1).drop_last() =~= iv.subrange(0, j as int));
                assert(iv.subrange(0, j as int + 1).last() == iv[j as int]);
                assert(out@.rows =~= base + unwind_items(row, iv.subrange(0, j as int + 1)));
            }
            j = j + 1;
        }
        proof {
            assert(iv.subrange(0, items@.len() as int) =~= iv);
            crate::graph::matching::lemma_prefix_push(rows, i as int);
        }
        i = i + 1;
    }
    assert(rows.subrange(0, n as int) =~= rows);
    out
}

// ---------------------------------------------------------------------------------------------
// Steps that change the graph.

/// Every path of a `MERGE` step, and every plan it has, is well formed.
pub open spec fn merge_wf(planned: Seq<(Option<PlanNode>, Path)>) -> bool {
    forall|q: int| 0 <= q < planned.len() ==>
        crate::parser::grammar::path_wf(#[trigger] planned[q].1) && (planned[q].0 matches Some(pl) ==> plan_wf(pl))
}

impl Graph {
    /// Runs a `CREATE` step: for each row, creates the paths (see `execute_create_path`) and
    /// gives the row with what they bound (see `create_rows`).
    pub fn run_create(&mut self, paths: &Vec<Path>, rs: &ResultSet) -> (out: ResultSet)
        requires
            old(self).wf(),
            crate::parser::grammar::paths_wf(paths@),
            rs.wf(),
        ensures
            final(self).wf(),
            redoes(*old(self), *final(self)),
            out.wf(),
            ({
                let cr = create_rows(old(self)@, paths_view(paths@), rs@.rows, final(self)@, rs@.rows.len());
                &&& logged_since(*old(self), *final(self)) == cr.0.log
                &&& out@.rows == cr.1
            }),
    {
        let ghost g0 = *self;
        let ghost pv = paths_view(paths@);
        let ghost rows = rs@.rows;
        proof {
            lemma_redoes_refl(*self);
            lemma_logged_since_refl(*self);
        }
        let mut out = ResultSet::new();
        let n = rs.rows();
        let mut i: usize = 0;
        while i < n
            invariant
                self.wf(),
                redoes(g0, *self),
                ids_kept(g0@, self@),
                crate::parser::grammar::paths_wf(paths@),
                pv == paths_view(paths@),
                rs.wf(),
                rows == rs@.rows,
                out.wf(),
                n == rows.len(),
                i <= n,
                ({
                    let cr = create_rows(g0@, pv, rows, self@, i as nat);
                    &&& logged_since(g0, *self) == cr.0.log
                    &&& self@.nodes.len() == cr.0.n
                    &&& self@.edges.len() == cr.0.e
                    &&& self@.labels == cr.0.labels
                    &&& out@.rows == cr.1
                }),
            decreases n - i,
        {
            let mut bindings: Vec<(String, GraphElement)> = Vec::new();
            let mut k: usize = 0;
            proof { assert(bindings_view(bindings@) =~= Seq::<(Seq<char>, ElemV)>::empty()); }
            while k < paths.len()
                invariant
                    self.wf(),
                    redoes(g0, *self),
                    ids_kept(g0@, self@),
                    crate::parser::grammar::paths_wf(paths@),
                    pv == paths_view(paths@),
                    rs.wf(),
                    rows == rs@.rows,
                    i < n,
                    n == rows.len(),
                    k <= pv.len(),
                    ({
                        let cr = create_rows(g0@, pv, rows, self@, i as nat);
                        &&& out@.rows == cr.1
                        &&& self@.nodes.len() >= cr.0.n
                        &&& self@.edges.len() >= cr.0.e
                    }),
                    ({
                        let base = create_rows(g0@, pv, rows, self@, i as nat).0;
                        let st = paths_state(CreateState { bs: Seq::empty(), ..base }, pv, rows[i as int], self@, k as nat);
                        &&& logged_since(g0, *self) == st.log
                        &&& self@.nodes.len() == st.n
                        &&& self@.edges.len() == st.e
                        &&& self@.labels == st.labels
                        &&& bindings_view(bindings@) == st.bs
                    }),
                decreases pv.len() - k,
            {
                let ghost s1 = *self;
                let ghost cr1 = create_rows(g0@, pv, rows, s1@, i as nat);
                let ghost base = cr1.0;
                let ghost st0 = CreateState { bs: Seq::empty(), ..base };
                let ghost st = paths_state(st0, pv, rows[i as int], s1@, k as nat);
                assert(crate::parser::grammar::path_wf(paths@[k as int]));
                self.execute_create_path(&paths[k], rs, i, &mut bindings);
                proof {
                    let s2 = *self;
                    let p = pv[k as int];
                    assert(paths@[k as int]@ == p);
                    lemma_redoes_trans(g0, s1, s2);
                    lemma_logged_since_concat(g0, s1, s2);
                    // What was built before reads the same with the new ids.
                    lemma_ids_agree(s1@, s2@, s1@.nodes.len(), s1@.edges.len());
                    lemma_paths_state_fin(st0, pv, rows[i as int], s1@, s2@, k as nat);
                    lemma_create_rows_fin(g0@, pv, rows, s1@, s2@, i as nat);
                    // The path's own log follows what was logged before.
                    let local = CreateState { log: Seq::empty(), cur: 0, elems: Seq::empty(), ..st };
                    assert(local == state_of(s1@, 0, st.bs));
                    lemma_path_state_shift(st, p, rows[i as int], s2@, p.edges.len());
                    let fin = paths_state(st0, pv, rows[i as int], s2@, k as nat + 1);
                    assert(fin.log == logged_since(g0, s2));
                }
                k = k + 1;
            }
            proof {
                let s = *self;
                let prev = create_rows(g0@, pv, rows, s@, i as nat);
                assert(create_rows(g0@, pv, rows, s@, i as nat + 1).0
                    == paths_state(CreateState { bs: Seq::empty(), ..prev.0 }, pv, rows[i as int], s@, pv.len()));
            }
            out.push_row_from(rs, i, &bindings);
            i = i + 1;
        }
        out
    }

    /// Runs a `MERGE` step: for each row and each path, the rows its plan matches from that row
    /// alone (with the path variable bound), or, when there are none, the row with the path
    /// created (see `merge_rows`).
    #[verifier::spinoff_prover]
    #[verifier::rlimit(30)]
    pub fn run_merge(&mut self, planned: &Vec<(Option<PlanNode>, Path)>, rs: &ResultSet, profile: &mut Option<String>) -> (out: ResultSet)
        requires
            old(self).wf(),
            merge_wf(planned@),
            rs.wf(),
        ensures
            final(self).wf(),
            redoes(*old(self), *final(self)),
            out.wf(),
            ({
                let mr = merge_rows(old(self)@, planned_view(planned@), rs@.rows, final(self)@, rs@.rows.len());
                &&& logged_since(*old(self), *final(self)) == mr.0.log
                &&& out@.rows == mr.1
            }),
            profile_adds(*old(profile), *final(profile),
                merge_rows_profile(old(self)@, planned_view(planned@), rs@.rows, final(self)@, rs@.rows.len())),
    {
        let ghost g0 = *self;
        let ghost pv = planned_view(planned@);
        let ghost rows = rs@.rows;
        proof {
            lemma_redoes_refl(*self);
            lemma_logged_since_refl(*self);
            crate::graph::plan_exec::lemma_profile_adds_none(*profile);
        }
        let mut out = ResultSet::new();
        let empty: Vec<(String, GraphElement)> = Vec::new();
        let n = rs.rows();
        let mut i: usize = 0;
        while i < n
            invariant
                self.wf(),
                redoes(g0, *self),
                ids_kept(g0@, self@),
                merge_wf(planned@),
                pv == planned_view(planned@),
                rs.wf(),
                rows == rs@.rows,
                out.wf(),
                n == rows.len(),
                i <= n,
                empty@.len() == 0,
                profile_adds(*old(profile), *profile, merge_rows_profile(g0@, pv, rows, self@, i as nat)),
                ({
                    let mr = merge_rows(g0@, pv, rows, self@, i as nat);
                    &&& logged_since(g0, *self) == mr.0.log
                    &&& self@.nodes.len() == mr.0.n
                    &&& self@.edges.len() == mr.0.e
                    &&& self@.labels == mr.0.labels
                    &&& out@.rows == mr.1
                }),
            decreases n - i,
        {
            let mut k: usize = 0;
            while k < planned.len()
                invariant
                    self.wf(),
                    redoes(g0, *self),
                    ids_kept(g0@, self@),
                    merge_wf(planned@),
                    pv == planned_view(planned@),
                    rs.wf(),
                    rows == rs@.rows,
                    out.wf(),
                    i < n,
                    n == rows.len(),
                    k <= pv.len(),
                    empty@.len() == 0,
                    ({
                        let prev = merge_rows(g0@, pv, rows, self@, i as nat);
                        profile_adds(*old(profile), *profile, merge_rows_profile(g0@, pv, rows, self@, i as nat)
                            + merge_paths_profile(g0@, prev.0, prev.1, pv, rows[i as int], self@, k as nat))
                    }),
                    self@.nodes.len() >= merge_rows(g0@, pv, rows, self@, i as nat).0.n,
                    self@.edges.len() >= merge_rows(g0@, pv, rows, self@, i as nat).0.e,
                    ({
                        let prev = merge_rows(g0@, pv, rows, self@, i as nat);
                        let mp = merge_paths(g0@, prev.0, prev.1, pv, rows[i as int], self@, k as nat);
                        &&& logged_since(g0, *self) == mp.0.log
                        &&& self@.nodes.len() == mp.0.n
                        &&& self@.edges.len() == mp.0.e
                        &&& self@.labels == mp.0.labels
                        &&& out@.rows == mp.1
                    }),
                decreases pv.len() - k,
            {
                let ghost s1 = *self;
                let ghost prev = merge_rows(g0@, pv, rows, s1@, i as nat);
                let ghost mp = merge_paths(g0@, prev.0, prev.1, pv, rows[i as int], s1@, k as nat);
                let ghost o1 = out@.rows;
                let ghost before_text = merge_rows_profile(g0@, pv, rows, s1@, i as nat)
                    + merge_paths_profile(g0@, prev.0, prev.1, pv, rows[i as int], s1@, k as nat);
                let ghost sp = merge_step_profile(g0@, mp.0, pv[k as int], rows[i as int]);
                let ghost pr0 = *profile;
                let path = &planned[k].1;
                assert(crate::parser::grammar::path_wf(planned@[k as int].1));
                assert(pv[k as int] == (planned@[k as int].0, planned@[k as int].1@));
                proof {
                    assert(s1@ == wal_replay(g0@, logged_since(g0, s1)));
                }
                let mut created = true;
                match &planned[k].0 {
                    Some(plan) => {
                        let mut single = ResultSet::new();
                        single.push_row(rs.row(i));
                        assert(single@.rows =~= seq![rows[i as int]]);
                        let mut matches = ResultSet::new();
                        let one = vec![path.copy()];
                        assert(paths_view(one@) =~= seq![pv[k as int].1]);
                        let ghost p0 = *profile;
                        let ghost m0 = matches@;
                        self.execute_plan_and_bind_paths(plan, &one, &single, &mut matches, profile, None);
                        proof {
                            crate::graph::plan_exec::lemma_profile_adds_trans(*old(profile), p0, *profile, before_text, sp);
                            let all = plan_rows(self@, *plan, single@.rows);
                            assert(m0.rows.len() == 0);
                            assert(limited(m0.rows, all, None) =~= m0.rows + all);
                            assert((m0.rows + all).subrange(0, (m0.rows + all).len() as int) =~= all);
                            assert(matches@.rows =~= bound_rows(all, seq![pv[k as int].1]));
                        }
                        if !matches.is_empty() {
                            created = false;
                            let m = matches.rows();
                            let mut q: usize = 0;
                            while q < m
                                invariant
                                    matches.wf(),
                                    out.wf(),
                                    m == matches@.rows.len(),
                                    q <= m,
                                    empty@.len() == 0,
                                    out@.rows == o1 + matches@.rows.subrange(0, q as int),
                                decreases m - q,
                            {
                                out.push_row_from(&matches, q, &empty);
                                proof {
                                    assert(bindings_view(empty@) =~= Seq::<(Seq<char>, ElemV)>::empty());
                                    assert(matches@.rows.subrange(0, q as int + 1)
                                        =~= matches@.rows.subrange(0, q as int).push(matches@.rows[q as int]));
                                }
                                q = q + 1;
                            }
                            proof {
                                assert(matches@.rows.subrange(0, m as int) =~= matches@.rows);
                                lemma_redoes_refl(*self);
                            }
                        }
                    },
                    None => {
                        proof {
                            crate::graph::plan_exec::lemma_profile_adds_trans(*old(profile), pr0, *profile, before_text, sp);
                            assert(*profile == pr0);
                        }
                    },
                }
                assert(profile_adds(*old(profile), *profile, before_text + sp));
                if created {
                    let mut bindings: Vec<(String, GraphElement)> = Vec::new();
                    proof { assert(bindings_view(bindings@) =~= Seq::<(Seq<char>, ElemV)>::empty()); }
                    self.execute_create_path(path, rs, i, &mut bindings);
                    out.push_row_from(rs, i, &bindings);
                    proof {
                        let s2 = *self;
                        let p = pv[k as int].1;
                        let st = CreateState { bs: Seq::empty(), ..mp.0 };
                        lemma_redoes_trans(g0, s1, s2);
                        lemma_logged_since_concat(g0, s1, s2);
                        lemma_ids_agree(s1@, s2@, s1@.nodes.len(), s1@.edges.len());
                        lemma_merge_paths_fin(g0@, prev.0, prev.1, pv, rows[i as int], s1@, s2@, k as nat);
                        lemma_merge_rows_fin(g0@, pv, rows, s1@, s2@, i as nat);
                        lemma_merge_paths_profile_fin(g0@, prev.0, prev.1, pv, rows[i as int], s1@, s2@, k as nat);
                        lemma_merge_rows_profile_fin(g0@, pv, rows, s1@, s2@, i as nat);
                        let local = CreateState { log: Seq::empty(), cur: 0, elems: Seq::empty(), ..st };
                        assert(local == state_of(s1@, 0, Seq::empty()));
                        lemma_path_state_shift(st, p, rows[i as int], s2@, p.edges.len());
                    }
                }
                proof {
                    let se = self@;
                    assert(merge_rows(g0@, pv, rows, se, i as nat) == prev);
                    assert(merge_paths(g0@, prev.0, prev.1, pv, rows[i as int], se, k as nat) == mp);
                    assert(merge_rows_profile(g0@, pv, rows, se, i as nat) == merge_rows_profile(g0@, pv, rows, s1@, i as nat));
                    assert(merge_paths_profile(g0@, prev.0, prev.1, pv, rows[i as int], se, k as nat)
                        == merge_paths_profile(g0@, prev.0, prev.1, pv, rows[i as int], s1@, k as nat));
                    assert(merge_paths_profile(g0@, prev.0, prev.1, pv, rows[i as int], se, k as nat + 1)
                        == merge_paths_profile(g0@, prev.0, prev.1, pv, rows[i as int], s1@, k as nat) + sp);
                    assert(before_text + sp =~= merge_rows_profile(g0@, pv, rows, s1@, i as nat)
                        + (merge_paths_profile(g0@, prev.0, prev.1, pv, rows[i as int], s1@, k as nat) + sp));
                }
                k = k + 1;
            }
            i = i + 1;
        }
        out
    }

    /// Runs a `SET var.key = value` step: sets the property on each node the rows bind `var`
    /// to, once per node, in the order the rows first name them (see `set_targets`).
    pub fn run_set(&mut self, var: &String, key: &String, value: &PropertyValue, rs: &ResultSet)
        requires
            old(self).wf(),
            value.wf(),
            rs.wf(),
        ensures
            final(self).wf(),
            redoes(*old(self), *final(self)),
            logged_since(*old(self), *final(self))
                == set_entries(set_targets(rs@.rows, var@, old(self)@.nodes.len()), key@, value@),
            final(self)@.nodes.len() == old(self)@.nodes.len(),
    {
        let ghost g0 = *self;
        let ghost nn = g0@.nodes.len();
        let ghost rows = rs@.rows;
        proof {
            lemma_redoes_refl(*self);
            lemma_logged_since_refl(*self);
            assert(rows.take(0) =~= Seq::<RowV>::empty());
        }
        let mut updated: Vec<usize> = Vec::new();
        let n = rs.rows();
        let mut i: usize = 0;
        while i < n
            invariant
                self.wf(),
                redoes(g0, *self),
                value.wf(),
                rs.wf(),
                rows == rs@.rows,
                n == rows.len(),
                i <= n,
                nn == g0@.nodes.len(),
                self@.nodes.len() == nn,
                logged_since(g0, *self) == set_entries(set_targets(rows.take(i as int), var@, nn), key@, value@),
                forall|id: usize| id < nn ==> (#[trigger] updated@.contains(id)
                    <==> set_targets(rows.take(i as int), var@, nn).contains(id)),
            decreases n - i,
        {
            let ghost t = set_targets(rows.take(i as int), var@, nn);
            proof {
                assert(rows.take(i as int + 1).drop_last() =~= rows.take(i as int));
                assert(rows.take(i as int + 1).last() == rows[i as int]);
            }
            match rs.get(i, var.as_str()) {
                Some(GraphElement::Node(id)) => {
                    let id = *id;
                    assert(bound_node(rows[i as int], Some(var@)) == Some(id));
                    assert(self.nodes@.len() == nn);
                    if !ids_contain(&updated, id) {
                        let ghost u0 = updated@;
                        updated.push(id);
                        proof {
                            assert forall|x: usize| x < nn implies (#[trigger] updated@.contains(x)
                                <==> set_targets(rows.take(i as int + 1), var@, nn).contains(x)) by {
                                assert(updated@ == u0.push(id));
                                let t2 = set_targets(rows.take(i as int + 1), var@, nn);
                                if id < nn {
                                    assert(!t.contains(id));
                                    assert(t2 == t.push(id));
                                    if t2.contains(x) && x != id {
                                        let j = choose|j: int| 0 <= j < t2.len() && t2[j] == x;
                                        assert(t[j] == x);
                                    }
                                    if t.contains(x) {
                                        let j = choose|j: int| 0 <= j < t.len() && t[j] == x;
                                        assert(t2[j] == x);
                                    }
                                    assert(t2[t.len() as int] == id);
                                } else {
                                    assert(t2 == t);
                                }
                                if x == id {
                                    assert(updated@[u0.len() as int] == id);
                                } else {
                                    if updated@.contains(x) {
                                        let j = choose|j: int| 0 <= j < updated@.len() && updated@[j] == x;
                                        assert(u0[j] == x);
                                    }
                                    if u0.contains(x) {
                                        let j = choose|j: int| 0 <= j < u0.len() && u0[j] == x;
                                        assert(updated@[j] == x);
                                    }
                                }
                            }
                        }
                        if id < self.nodes.len() {
                            let ghost g1 = *self;
                            self.set_node_property(id, crate::text::copy_string(key), value.copy());
                            proof {
                                let e = crate::graph::types::WalEntryV::SetNodeProperty {
                                    node_id: id, key: key@, value: value@ };
                                lemma_logged_redoes(g1, *self, e);
                                lemma_logged_since_push(g0, g1, *self, e);
                                lemma_redoes_trans(g0, g1, *self);
                                assert(set_targets(rows.take(i as int + 1), var@, nn) == t.push(id));
                                assert(set_entries(t.push(id), key@, value@)
                                    =~= set_entries(t, key@, value@).push(e));
                            }
                        }
                    } else {
                        assert(id < nn ==> t.contains(id));
                        assert(set_targets(rows.take(i as int + 1), var@, nn) == t);
                    }
                },
                _ => {
                    assert(bound_node(rows[i as int], Some(var@)) is None);
                    assert(set_targets(rows.take(i as int + 1), var@, nn) == t);
                },
            }
            i = i + 1;
        }
        proof { assert(rows.take(n as int) =~= rows); }
    }

    /// Runs a `DELETE` step: marks deleted each live edge, then each live node, that the rows
    /// bind the variables to (each once, in the order the variables and then the rows name
    /// them; see `delete_log`).
    pub fn run_delete(&mut self, vars: &Vec<String>, rs: &ResultSet)
        requires
            old(self).wf(),
            rs.wf(),
        ensures
            final(self).wf(),
            redoes(*old(self), *final(self)),
            logged_since(*old(self), *final(self)) == delete_log(old(self)@, rs@.rows, names_view(vars@)),
            final(self)@.nodes.len() == old(self)@.nodes.len(),
    {
        let ghost g0 = *self;
        let ghost rows = rs@.rows;
        let ghost vv = names_view(vars@);
        proof {
            lemma_redoes_refl(*self);
            lemma_logged_since_refl(*self);
        }
        let mut nodes: Vec<usize> = Vec::new();
        let mut edges: Vec<usize> = Vec::new();
        let n = rs.rows();
        let mut v: usize = 0;
        proof { assert(vv.take(0) =~= Seq::<Seq<char>>::empty()); }
        while v < vars.len()
            invariant
                rs.wf(),
                rows == rs@.rows,
                n == rows.len(),
                vv == names_view(vars@),
                v <= vars@.len(),
                nodes@ == collect_vars(rows, vv.take(v as int), true),
                edges@ == collect_vars(rows, vv.take(v as int), false),
            decreases vars@.len() - v,
        {
            let ghost an = nodes@;
            let ghost ae = edges@;
            let ghost var = vv[v as int];
            proof { assert(rows.take(0) =~= Seq::<RowV>::empty()); }
            let mut i: usize = 0;
            while i < n
                invariant
                    rs.wf(),
                    rows == rs@.rows,
                    n == rows.len(),
                    vv == names_view(vars@),
                    v < vars@.len(),
                    var == vv[v as int],
                    i <= n,
                    nodes@ == collect_bound(rows.take(i as int), var, an, true),
                    edges@ == collect_bound(rows.take(i as int), var, ae, false),
                decreases n - i,
            {
                proof {
                    assert(rows.take(i as int + 1).drop_last() =~= rows.take(i as int));
                    assert(rows.take(i as int + 1).last() == rows[i as int]);
                    assert(vars@[v as int]@ == var);
                }
                match rs.get(i, vars[v].as_str()) {
                    Some(GraphElement::Node(id)) => {
                        assert(bound_node(rows[i as int], Some(var)) == Some(*id));
                        assert(bound_edge(rows[i as int], Some(var)) is None);
                        if !ids_contain(&nodes, *id) {
                            nodes.push(*id);
                        }
                    },
                    Some(GraphElement::Edge(id)) => {
                        assert(bound_edge(rows[i as int], Some(var)) == Some(*id));
                        assert(bound_node(rows[i as int], Some(var)) is None);
                        if !ids_contain(&edges, *id) {
                            edges.push(*id);
                        }
                    },
                    _ => {
                        assert(bound_edge(rows[i as int], Some(var)) is None);
                        assert(bound_node(rows[i as int], Some(var)) is None);
                    },
                }
                i = i + 1;
            }
            proof {
                assert(rows.take(n as int) =~= rows);
                assert(vv.take(v as int + 1).drop_last() =~= vv.take(v as int));
                assert(vv.take(v as int + 1).last() == var);
            }
            v = v + 1;
        }
        proof { assert(vv.take(vars@.len() as int) =~= vv); }
        let ghost es_all = edges@;
        let ghost ns_all = nodes@;
        let mut k: usize = 0;
        proof { assert(es_all.take(0) =~= Seq::<usize>::empty()); }
        while k < edges.len()
            invariant
                self.wf(),
                redoes(g0, *self),
                self@.nodes.len() == g0@.nodes.len(),
                es_all == edges@,
                k <= edges@.len(),
                logged_since(g0, *self) == delete_edges_log(g0@, es_all.take(k as int)),
            decreases edges@.len() - k,
        {
            let e = edges[k];
            proof {
                assert(es_all.take(k as int + 1).drop_last() =~= es_all.take(k as int));
                assert(es_all.take(k as int + 1).last() == e);
                assert(self@ == wal_replay(g0@, logged_since(g0, *self)));
                assert(self.edges@.len() == self@.edges.len());
            }
            if e < self.edges.len() && !self.edges[e].deleted {
                let ghost g1 = *self;
                self.delete_edge(e);
                proof {
                    let en = WalEntryV::DeleteEdge { edge_id: e };
                    lemma_logged_redoes(g1, *self, en);
                    lemma_logged_since_push(g0, g1, *self, en);
                    lemma_redoes_trans(g0, g1, *self);
                }
            }
            k = k + 1;
        }
        proof { assert(es_all.take(es_all.len() as int) =~= es_all); }
        let ghost g_mid = *self;
        let ghost elog = logged_since(g0, *self);
        let ghost h = wal_replay(g0@, elog);
        let mut k: usize = 0;
        proof { assert(ns_all.take(0) =~= Seq::<usize>::empty()); assert(elog + Seq::<WalEntryV>::empty() =~= elog); }
        while k < nodes.len()
            invariant
                self.wf(),
                redoes(g0, *self),
                self@.nodes.len() == g0@.nodes.len(),
                ns_all == nodes@,
                k <= nodes@.len(),
                h == wal_replay(g0@, elog),
                logged_since(g0, *self) == elog + delete_nodes_log(h, ns_all.take(k as int)),
            decreases nodes@.len() - k,
        {
            let nd = nodes[k];
            proof {
                assert(ns_all.take(k as int + 1).drop_last() =~= ns_all.take(k as int));
                assert(ns_all.take(k as int + 1).last() == nd);
                law_replay_concat(g0@, elog, delete_nodes_log(h, ns_all.take(k as int)));
                assert(self@ == wal_replay(g0@, logged_since(g0, *self)));
                assert(self.nodes@.len() == self@.nodes.len());
            }
            if nd < self.nodes.len() && !self.nodes[nd].deleted {
                let ghost g1 = *self;
                self.delete_node(nd);
                proof {
                    let en = WalEntryV::DeleteNode { node_id: nd };
                    lemma_logged_redoes(g1, *self, en);
                    lemma_logged_since_push(g0, g1, *self, en);
                    lemma_redoes_trans(g0, g1, *self);
                    assert(elog + delete_nodes_log(h, ns_all.take(k as int)).push(en)
                        =~= (elog + delete_nodes_log(h, ns_all.take(k as int))).push(en));
                }
            }
            k = k + 1;
        }
        proof { assert(ns_all.take(ns_all.len() as int) =~= ns_all); }
    }
}

} // verus!
