use vstd::prelude::*;
use crate::graph::{logged_since, redoes, replayable, Graph};
use crate::graph::model::{lemma_replay_push, wal_apply, wal_replay};
use crate::graph::execute::{existing_node, label_entries, label_or, node_step, rel_step, set_entries, state_of};
use crate::property::PropV;
use crate::graph::element::ElemV;
use crate::graph::matching::{edge_matches_spec, target_matches};
use crate::graph::types::WalEntryV;
use crate::parser::{NodePatternV, RelPatternV};
use crate::graph::eval::{compare_spec, order_spec, text_number, EvalV};
use crate::keyed::{key_lt, lemma_key_lt_asymmetric, lemma_key_lt_total};
use crate::property::{lemma_num_lt_asymmetric, lemma_num_lt_total, num_lt, NumV};
use std::cmp::Ordering;
use crate::graph::execute::{filter_cap, holding, match_result};
use crate::graph::matching::{all_ids, find_nodes_spec, index_list, label_id_of, matching_node, node_matches_spec, scan_nodes, RowV};
use crate::graph::model::{gv_wf, has_index, index_at, index_ok, index_pos, lemma_filter_distinct, node_indexed};
use crate::graph::model::GraphV;
use crate::graph::query::{results_text, shown};
use crate::parser::{CompareOp, CondV, NodePattern, PathV};
use crate::planner::PlanNode;
use crate::graph::matching::{bind, dfs_rows, var_list, var_rows, var_step_ok, var_target_ok};
use crate::graph::project::{bound_vals, dedup, group_item, insert_at, isort, keys_sign, sort_entries};
use crate::graph::eval::{cond_holds, order_sign};
use crate::parser::{ItemV, OrderItemV};
use crate::parser::grammar::sp_compare_op;
use crate::parser::lexical::{lemma_skip_ws, skip_ws};
use crate::graph::import::{
    edge_records, exported_edges, exported_indices, exported_labels, exported_nodes, import_problem,
    imported_base, index_defs_view, index_entries, label_records, law_export_import, node_records, properties_ok,
};
use crate::graph::types::IndexType;
use crate::node::Node;
use crate::edge::Edge;

verus! {

/// Every change is logged so that it can be recovered: the entries a graph logged since an
/// earlier state can each be redone in turn on that state (so `Graph::replay_log` accepts them
/// all), and redoing them gives the graph as it is now.
pub proof fn law_log_recovers(before: Graph, after: Graph)
    requires
        redoes(before, after),
    ensures
        replayable(before@, after.wal@.subrange(before.wal@.len() as int, after.wal@.len() as int)),
        after@ == wal_replay(before@, logged_since(before, after)),
{
}

/// A node that is marked deleted is never found: every node `find_nodes` gives for a pattern
/// exists, is live and matches the pattern.
pub proof fn law_deleted_never_found(g: GraphV, p: NodePattern, row: RowV)
    ensures
        forall|i: int| 0 <= i < find_nodes_spec(g, p, row).len() ==> {
            let id = #[trigger] find_nodes_spec(g, p, row)[i];
            node_matches_spec(g, id as int, p@) && !g.nodes[id as int].deleted
        },
{
    let ids = find_nodes_spec(g, p, row);
    assert forall|i: int| 0 <= i < ids.len() implies node_matches_spec(g, (#[trigger] ids[i]) as int, p@) by {
        match crate::graph::matching::bound_node(row, p@.variable) {
            Some(id) => {},
            None => match crate::graph::matching::index_choice(g, p) {
                Some((k, v)) => {
                    let l = crate::graph::matching::index_list(g, p@.label.unwrap(), k, v);
                    l.lemma_filter_pred(matching_node(g, p@), i);
                },
                None => {
                    crate::graph::matching::all_ids(g.nodes.len()).lemma_filter_pred(matching_node(g, p@), i);
                },
            },
        }
    }
}

/// Every row a `MATCH` with a `WHERE` condition gives satisfies the condition.
pub proof fn law_match_rows_satisfy(g: Graph, plan: PlanNode, paths: Seq<PathV>, c: CondV, limit: Option<usize>, rows: Seq<RowV>)
    ensures
        forall|i: int| 0 <= i < match_result(g, plan, paths, Some(c), limit, rows).len() ==>
            crate::graph::eval::cond_holds(g.nodes@, g.edges@, #[trigger] match_result(g, plan, paths, Some(c), limit, rows)[i], c),
{
    let found = crate::graph::plan_exec::bound_rows(
        crate::graph::matching::limited(Seq::empty(), crate::graph::matching::plan_rows(g@, plan, rows), None), paths);
    let f = found.filter(holding(g, c));
    let r = match_result(g, plan, paths, Some(c), limit, rows);
    assert(r == filter_cap(f, limit));
    assert forall|i: int| 0 <= i < r.len() implies crate::graph::eval::cond_holds(g.nodes@, g.edges@, #[trigger] r[i], c) by {
        assert(r[i] == f[i]);
        found.lemma_filter_pred(holding(g, c), i);
    }
}

/// Nothing compares with `Null`: a comparison with `Null` on either side is false, whatever the
/// operator.
pub proof fn law_null_never_compares(v: EvalV, op: CompareOp)
    ensures
        !compare_spec(EvalV::Null, v, op),
        !compare_spec(v, EvalV::Null, op),
{
}

/// `a < b` holds exactly when `b > a` does, and `a <= b` exactly when `b >= a`.
pub proof fn law_lt_is_swapped_gt(a: EvalV, b: EvalV)
    ensures
        compare_spec(a, b, CompareOp::Lt) == compare_spec(b, a, CompareOp::Gt),
        compare_spec(a, b, CompareOp::Lte) == compare_spec(b, a, CompareOp::Gte),
{
}

/// The order `ORDER BY` sorts by agrees with comparison: where two values are ordered and
/// neither is `Null`, `l` comes first exactly when `l < r` holds, last exactly when `l > r`
/// holds, and they tie exactly when `l = r` holds.
pub proof fn law_order_agrees_with_compare(l: EvalV, r: EvalV)
    requires
        !(l is Null),
        !(r is Null),
        order_spec(l, r) is Some,
    ensures
        (order_spec(l, r) == Some(Ordering::Less)) == compare_spec(l, r, CompareOp::Lt),
        (order_spec(l, r) == Some(Ordering::Greater)) == compare_spec(l, r, CompareOp::Gt),
        (order_spec(l, r) == Some(Ordering::Equal)) == compare_spec(l, r, CompareOp::Eq),
{
    match (l, r) {
        (EvalV::Number(a), EvalV::Number(b)) => lemma_numbers_ordered(a, b),
        (EvalV::Text(a), EvalV::Text(b)) => {
            if a != b {
                lemma_key_lt_total(a, b);
            }
            if key_lt(a, b) {
                lemma_key_lt_asymmetric(a, b);
            }
            if key_lt(b, a) {
                lemma_key_lt_asymmetric(b, a);
            }
        },
        (EvalV::Number(a), EvalV::Text(b)) => {
            if let Some(n) = text_number(b) {
                lemma_numbers_ordered(a, n);
            }
        },
        (EvalV::Text(a), EvalV::Number(b)) => {
            if let Some(n) = text_number(a) {
                lemma_numbers_ordered(n, b);
            }
        },
        _ => {},
    }
}

/// Of two numbers exactly one of `a < b`, `a = b`, `b < a` holds.
proof fn lemma_numbers_ordered(a: NumV, b: NumV)
    ensures
        num_lt(a, b) ==> !num_lt(b, a) && a != b,
        num_lt(b, a) ==> a != b,
        a != b ==> num_lt(a, b) || num_lt(b, a),
{
    if a != b {
        lemma_num_lt_total(a, b);
    }
    if num_lt(a, b) {
        lemma_num_lt_asymmetric(a, b);
    }
    if num_lt(b, a) {
        lemma_num_lt_asymmetric(b, a);
    }
}

/// Equality is symmetric: `a = b` exactly when `b = a`, and likewise for `<>`.
pub proof fn law_eq_symmetric(a: EvalV, b: EvalV)
    ensures
        compare_spec(a, b, CompareOp::Eq) == compare_spec(b, a, CompareOp::Eq),
        compare_spec(a, b, CompareOp::Neq) == compare_spec(b, a, CompareOp::Neq),
{
}

/// `RETURN ... LIMIT l` shows at most `l` rows, and all of them when there are no more than `l`.
pub proof fn law_limit_caps(rows: Seq<RowV>, l: usize)
    ensures
        shown(rows, Some(l)).len() <= l,
        rows.len() <= l ==> shown(rows, Some(l)) == rows,
        shown(rows, Some(l)) == rows.subrange(0, shown(rows, Some(l)).len() as int),
{
    if rows.len() <= l {
        assert(rows.subrange(0, rows.len() as int) =~= rows);
    }
}

/// With no rows, or no names to show, a `RETURN` gives no text (the answer is then `[]`).
pub proof fn law_empty_results(g: Graph, rows: Seq<RowV>, ks: Seq<Seq<char>>, limit: Option<usize>)
    requires
        rows.len() == 0 || ks.len() == 0,
    ensures
        results_text(g, rows, ks, limit).len() == 0,
{
}

/// What a `CREATE` writes, a `MATCH` reads back: a node created for a pattern (whose variable
/// names no node yet) is live, has the pattern's label and holds its properties, so the pattern
/// matches it.
pub proof fn law_created_node_matches(g: GraphV, pv: NodePatternV, row: RowV, bs: Seq<(Seq<char>, ElemV)>, fin: GraphV)
    requires
        existing_node(row, bs, pv.variable, g.nodes.len()) is None,
    ensures
        node_matches_spec(wal_replay(g, node_step(state_of(g, 0, bs), pv, row, fin).log), g.nodes.len() as int, pv),
{
    let name = label_or(pv.label, "Node"@);
    let le = label_entries(g.labels, name);
    let log = node_step(state_of(g, 0, bs), pv, row, fin).log;
    let en = log.last();
    assert(log =~= le.push(en));
    lemma_replay_push(g, le, en);
    assert(le.len() == 1 ==> le =~= Seq::<WalEntryV>::empty().push(le[0]));
    if le.len() == 1 {
        lemma_replay_push(g, Seq::empty(), le[0]);
    }
    let g1 = wal_replay(g, le);
    assert(g1.nodes == g.nodes);
    assert(g1.labels == crate::graph::execute::labels_with(g.labels, name));
    let g2 = wal_replay(g, log);
    let lid = crate::graph::execute::label_after(g.labels, name);
    assert(g2 == crate::graph::model::g_add_node(g1, fin.nodes[g.nodes.len() as int].id, lid, pv.properties));
    let n = g.nodes.len() as int;
    assert(g2.nodes[n].labels == seq![lid]);
    assert(g2.nodes[n].labels[0] == lid);
    assert(g1.labels.contains(name)) by {
        if !g.labels.contains(name) {
            assert(g1.labels[g.labels.len() as int] == name);
        }
    }
    assert(crate::graph::matching::label_id_of(g2, name) == Some(lid));
    assert(crate::graph::matching::props_match(g2.nodes[n].properties, pv.properties));
}

/// What a `CREATE` writes, a `MATCH` reads back: a relationship created for a pattern is live,
/// has the pattern's label and holds its properties, so the pattern matches it.
pub proof fn law_created_rel_matches(g: GraphV, rp: RelPatternV, start: usize, end: usize, fin: GraphV)
    ensures
        edge_matches_spec(wal_replay(g, rel_step(state_of(g, end, Seq::empty()), rp, start, fin).log), g.edges.len() as int,
            rp),
{
    let name = label_or(rp.label, "Rel"@);
    let le = label_entries(g.labels, name);
    let log = rel_step(state_of(g, end, Seq::empty()), rp, start, fin).log;
    let en = log.last();
    assert(log =~= le.push(en));
    lemma_replay_push(g, le, en);
    if le.len() == 1 {
        assert(le =~= Seq::<WalEntryV>::empty().push(le[0]));
        lemma_replay_push(g, Seq::empty(), le[0]);
    }
    let g1 = wal_replay(g, le);
    assert(g1.edges == g.edges);
    assert(g1.labels == crate::graph::execute::labels_with(g.labels, name));
    let g2 = wal_replay(g, log);
    let lid = crate::graph::execute::label_after(g.labels, name);
    let e = g.edges.len() as int;
    assert(g2.edges == g1.edges.push(crate::edge::EdgeV { id: fin.edges[e].id, labels: seq![lid], start: start, end: end,
        properties: rp.properties, deleted: false, created_by: crate::graph::model::stamp(g.tx), deleted_by: None }));
    assert(g2.labels == g1.labels);
    assert(g2.edges[e].labels[0] == lid);
    assert(g1.labels.contains(name)) by {
        if !g.labels.contains(name) {
            assert(g1.labels[g.labels.len() as int] == name);
        }
    }
    assert(crate::graph::matching::label_id_of(g2, name) == Some(lid));
    assert(crate::graph::matching::props_match(g2.edges[e].properties, rp.properties));
}

/// What a `SET` writes, a read gives back: once the entries of a `SET` are redone, each node it
/// changed holds the value under the key (and the graph keeps its nodes).
pub proof fn law_set_then_read(g: GraphV, ids: Seq<usize>, key: Seq<char>, value: PropV)
    requires
        forall|j: int| 0 <= j < ids.len() ==> #[trigger] ids[j] < g.nodes.len(),
    ensures
        wal_replay(g, set_entries(ids, key, value)).nodes.len() == g.nodes.len(),
        forall|j: int| #![trigger ids[j]] 0 <= j < ids.len() ==>
            wal_replay(g, set_entries(ids, key, value)).nodes[ids[j] as int].properties.contains_key(key)
            && wal_replay(g, set_entries(ids, key, value)).nodes[ids[j] as int].properties[key] == value,
    decreases ids.len(),
{
    if ids.len() > 0 {
        let prev = ids.drop_last();
        law_set_then_read(g, prev, key, value);
        let x = ids.last();
        let en = WalEntryV::SetNodeProperty { node_id: x, key: key, value: value };
        assert(set_entries(ids, key, value) =~= set_entries(prev, key, value).push(en));
        lemma_replay_push(g, set_entries(prev, key, value), en);
        let h0 = wal_replay(g, set_entries(prev, key, value));
        let h = wal_replay(g, set_entries(ids, key, value));
        assert forall|j: int| #![trigger ids[j]] 0 <= j < ids.len() implies
            h.nodes[ids[j] as int].properties.contains_key(key) && h.nodes[ids[j] as int].properties[key] == value by {
            if ids[j] != x {
                assert(j < prev.len());
                assert(prev[j] == ids[j]);
                assert(h.nodes[ids[j] as int] == h0.nodes[ids[j] as int]);
            }
        }
    }
}

/// An index only speeds a lookup up: on a well-formed graph that indexes a pattern's label and
/// one of its properties, the nodes listed in that index, kept where they match the pattern, are
/// exactly the matching nodes that a scan finds, each as often (once), in some order.
pub proof fn law_index_finds_scanned_nodes(g: GraphV, p: NodePatternV, prop: Seq<char>)
    requires
        gv_wf(g),
        g.nodes.len() <= usize::MAX,
        p.label is Some,
        p.properties.contains_key(prop),
        label_id_of(g, p.label.unwrap()) matches Some(lid) && has_index(g.indices, lid, prop),
    ensures
        forall|y: usize| #[trigger] index_list(g, p.label.unwrap(), prop, p.properties[prop]).filter(matching_node(g, p)).contains(y)
            <==> scan_nodes(g, p).contains(y),
        index_list(g, p.label.unwrap(), prop, p.properties[prop]).filter(matching_node(g, p)).to_multiset()
            =~= scan_nodes(g, p).to_multiset(),
{
    let l = p.label.unwrap();
    let v = p.properties[prop];
    let listed = index_list(g, l, prop, v);
    let f = matching_node(g, p);
    let lid = label_id_of(g, l).unwrap();
    let q = index_pos(g.indices, lid, prop);
    assert(index_at(g.indices, lid, prop, q));
    assert(index_ok(g, g.indices[q]));
    assert forall|y: usize| #[trigger] listed.filter(f).contains(y) <==> scan_nodes(g, p).contains(y) by {
        if listed.filter(f).contains(y) {
            let i = choose|i: int| 0 <= i < listed.filter(f).len() && listed.filter(f)[i] == y;
            listed.lemma_filter_pred(f, i);
            assert(node_matches_spec(g, y as int, p));
            assert(all_ids(g.nodes.len())[y as int] == y);
            all_ids(g.nodes.len()).lemma_filter_contains(f, y as int);
        }
        if scan_nodes(g, p).contains(y) {
            let i = choose|i: int| 0 <= i < scan_nodes(g, p).len() && scan_nodes(g, p)[i] == y;
            all_ids(g.nodes.len()).lemma_filter_pred(f, i);
            assert(node_matches_spec(g, y as int, p));
            let nd = g.nodes[y as int];
            assert(nd.properties.contains_key(prop) && nd.properties[prop] == v);
            assert(node_indexed(g, g.indices[q], y as int));
            assert(listed.contains(y));
            let j = choose|j: int| 0 <= j < listed.len() && listed[j] == y;
            listed.lemma_filter_contains(f, j);
        }
    }
    let a = listed.filter(f);
    let b = scan_nodes(g, p);
    assert(listed.no_duplicates());
    lemma_filter_distinct(listed, f);
    let ids = all_ids(g.nodes.len());
    assert forall|i: int, j: int| 0 <= i < ids.len() && 0 <= j < ids.len() && i != j implies ids[i] != ids[j] by {}
    lemma_filter_distinct(ids, f);
    a.lemma_multiset_has_no_duplicates();
    b.lemma_multiset_has_no_duplicates();
    assert forall|y: usize| a.to_multiset().count(y) == b.to_multiset().count(y) by {
        vstd::seq_lib::to_multiset_contains(a, y);
        vstd::seq_lib::to_multiset_contains(b, y);
        assert(a.contains(y) <==> b.contains(y));
    }
}

/// Creating indices leaves the labels, nodes and edges of a graph as they are.
proof fn lemma_indices_keep_graph(b: GraphV, defs: Seq<(usize, String, IndexType)>)
    ensures
        wal_replay(b, index_entries(defs)).nodes == b.nodes,
        wal_replay(b, index_entries(defs)).edges == b.edges,
        wal_replay(b, index_entries(defs)).labels == b.labels,
    decreases defs.len(),
{
    if defs.len() > 0 {
        assert(index_entries(defs).drop_last() =~= index_entries(defs.drop_last()));
        lemma_indices_keep_graph(b, defs.drop_last());
    }
}

/// Building indices from definitions that name each label and property at most once, on a
/// graph with none, gives indices with those labels, properties and kinds, in order.
proof fn lemma_indices_built(b: GraphV, defs: Seq<(usize, String, IndexType)>)
    requires
        b.indices.len() == 0,
        forall|i: int, j: int| 0 <= i < j < defs.len() ==>
            !(#[trigger] defs[i].0 == #[trigger] defs[j].0 && defs[i].1@ == defs[j].1@),
    ensures
        exported_indices(wal_replay(b, index_entries(defs))) == index_defs_view(defs),
    decreases defs.len(),
{
    if defs.len() == 0 {
        assert(exported_indices(b) =~= index_defs_view(defs));
    } else {
        let d = defs.drop_last();
        assert(index_entries(defs).drop_last() =~= index_entries(d));
        assert forall|i: int, j: int| 0 <= i < j < d.len() implies
            !(#[trigger] d[i].0 == #[trigger] d[j].0 && d[i].1@ == d[j].1@) by {
            assert(d[i] == defs[i] && d[j] == defs[j]);
        }
        lemma_indices_built(b, d);
        let h = wal_replay(b, index_entries(d));
        let last = defs.last();
        assert(index_entries(defs).last() == WalEntryV::CreateIndex { label: last.0, property: last.1@, index_type: last.2 });
        assert(!has_index(h.indices, last.0, last.1@)) by {
            if has_index(h.indices, last.0, last.1@) {
                let i = choose|i: int| index_at(h.indices, last.0, last.1@, i);
                assert(exported_indices(h).len() == h.indices.len());
                assert(index_defs_view(d).len() == d.len());
                assert(exported_indices(h)[i] == index_defs_view(d)[i]);
                assert(d[i] == defs[i]);
                assert(defs[defs.len() - 1] == last);
            }
        }
        let h2 = wal_replay(b, index_entries(defs));
        assert(h2 == wal_apply(h, index_entries(defs).last()));
        assert(h2 == crate::graph::model::g_create_index(h, last.0, last.1@, last.2));
        assert(h2.indices == h.indices.push(h2.indices.last()));
        assert(h2.indices.len() == h.indices.len() + 1);
        assert(h2.indices.last().label == last.0 && h2.indices.last().property == last.1@ && h2.indices.last().kind == last.2);
        assert forall|i: int| 0 <= i < h.indices.len() implies #[trigger] h2.indices[i] == h.indices[i] by {
            assert(h.indices.push(h2.indices.last())[i] == h.indices[i]);
        }
        assert(exported_indices(h).len() == h.indices.len());
        assert(index_defs_view(d).len() == d.len());
        assert(h.indices.len() == d.len());
        assert forall|i: int| 0 <= i < defs.len() implies #[trigger] exported_indices(h2)[i] == index_defs_view(defs)[i] by {
            assert(exported_indices(h2)[i] == (h2.indices[i].label, h2.indices[i].property, h2.indices[i].kind));
            assert(index_defs_view(defs)[i] == (defs[i].0, defs[i].1@, defs[i].2));
            if i < d.len() {
                assert(h2.indices[i] == h.indices[i]);
                assert(exported_indices(h)[i] == index_defs_view(d)[i]);
                assert(exported_indices(h)[i] == (h.indices[i].label, h.indices[i].property, h.indices[i].kind));
                assert(index_defs_view(d)[i] == (d[i].0, d[i].1@, d[i].2));
                assert(d[i] == defs[i]);
            } else {
                assert(h2.indices[i] == h2.indices.last());
                assert(defs[i] == last);
            }
        }
        assert(exported_indices(h2) =~= index_defs_view(defs));
    }
}

/// Exporting a graph and importing what was exported gives it back: the records are accepted,
/// the imported graph has the labels, nodes and edges of the exported one, transaction ids
/// included, and, once the exported index definitions are built, indices on the same labels
/// and properties, of the same kinds, in the same order.
pub proof fn law_export_import_round_trip(g: Graph, labels: Seq<(usize, String)>, nodes: Seq<(usize, Node)>,
    edges: Seq<(usize, Edge)>, defs: Seq<(usize, String, IndexType)>)
    requires
        g.wf(),
        g@.labels.len() < usize::MAX,
        g@.nodes.len() < usize::MAX,
        g@.edges.len() < usize::MAX,
        label_records(labels) == exported_labels(g@),
        node_records(nodes) == exported_nodes(g@),
        edge_records(edges) == exported_edges(g@),
        properties_ok(nodes, edges),
        index_defs_view(defs) == exported_indices(g@),
    ensures
        import_problem(labels, nodes, edges) is None,
        wal_replay(imported_base(labels, nodes, edges), index_entries(defs)).labels == g@.labels,
        wal_replay(imported_base(labels, nodes, edges), index_entries(defs)).nodes == g@.nodes,
        wal_replay(imported_base(labels, nodes, edges), index_entries(defs)).edges == g@.edges,
        exported_indices(wal_replay(imported_base(labels, nodes, edges), index_entries(defs))) == exported_indices(g@),
{
    law_export_import(g, labels, nodes, edges);
    let b = imported_base(labels, nodes, edges);
    lemma_indices_keep_graph(b, defs);
    assert forall|i: int, j: int| 0 <= i < j < defs.len() implies
        !(#[trigger] defs[i].0 == #[trigger] defs[j].0 && defs[i].1@ == defs[j].1@) by {
        assert(index_defs_view(defs).len() == defs.len());
        assert(exported_indices(g@).len() == g@.indices.len());
        assert(index_defs_view(defs)[i] == exported_indices(g@)[i]);
        assert(index_defs_view(defs)[j] == exported_indices(g@)[j]);
        assert(g@.indices[i].label == defs[i].0 && g@.indices[i].property == defs[i].1@);
        assert(g@.indices[j].label == defs[j].0 && g@.indices[j].property == defs[j].1@);
    }
    lemma_indices_built(b, defs);
}

// ---------------------------------------------------------------------------------------------
// What the query operations are for.

/// `q` is a directed path of distinct edges that match `rp`, each starting where the one before
/// ends, from node `s0` to node `end` (the empty path stays at `s0`).
pub open spec fn edge_chain(g: GraphV, s0: usize, q: Seq<usize>, rp: RelPatternV, end: usize) -> bool {
    &&& q.no_duplicates()
    &&& forall|k: int| 0 <= k < q.len() ==> (#[trigger] q[k]) < g.edges.len() && edge_matches_spec(g, q[k] as int, rp)
    &&& forall|k: int| 0 < k < q.len() ==> g.edges[q[k - 1] as int].end == g.edges[(#[trigger] q[k]) as int].start
    &&& if q.len() == 0 { end == s0 } else { g.edges[q[0] as int].start == s0 && g.edges[q.last() as int].end == end }
}

/// A row from a variable-length step `*mn..mx` of pattern `rp` towards `tp`, from node `s0`:
/// it binds the relationship variable to a path from `s0` within the bounds, ending at a node
/// that matches `tp` and that the row binds `tp`'s variable to (when it has one).
pub open spec fn var_row_ok(g: GraphV, s0: usize, rp: RelPatternV, tp: NodePatternV, v: Seq<char>, r: RowV,
    mn: usize, mx: Option<usize>) -> bool {
    &&& r.contains_key(v)
    &&& r[v] is EdgeArray
    &&& mn <= r[v]->EdgeArray_0.len()
    &&& (mx matches Some(m) ==> r[v]->EdgeArray_0.len() <= m)
    &&& exists|end: usize| #[trigger] edge_chain(g, s0, r[v]->EdgeArray_0, rp, end) && target_matches(g, end as int, tp)
        && (tp.variable matches Some(t) ==> r.contains_key(t) && r[t] == ElemV::Node(end))
}

/// A path extended by an edge that leaves its end, is not on it and matches `rp`.
proof fn lemma_chain_push(g: GraphV, s0: usize, q: Seq<usize>, rp: RelPatternV, end: usize, e: usize)
    requires
        edge_chain(g, s0, q, rp, end),
        var_step_ok(g, rp, end, q, e),
    ensures
        edge_chain(g, s0, q.push(e), rp, g.edges[e as int].end),
{
    let t = q.push(e);
    assert forall|a: int, b: int| 0 <= a < t.len() && 0 <= b < t.len() && a != b implies t[a] != t[b] by {
        if a == q.len() {
            assert(t[b] == q[b]);
        } else if b == q.len() {
            assert(t[a] == q[a]);
        } else {
            assert(t[a] == q[a] && t[b] == q[b]);
        }
    }
    assert forall|k: int| 0 <= k < t.len() implies (#[trigger] t[k]) < g.edges.len() && edge_matches_spec(g, t[k] as int, rp) by {
        if k < q.len() {
            assert(t[k] == q[k]);
        }
    }
    assert forall|k: int| 0 < k < t.len() implies g.edges[t[k - 1] as int].end == g.edges[(#[trigger] t[k]) as int].start by {
        if k < q.len() {
            assert(t[k] == q[k] && t[k - 1] == q[k - 1]);
        } else {
            assert(t[k - 1] == q.last());
        }
    }
    if q.len() > 0 {
        assert(t[0] == q[0]);
    }
}

proof fn lemma_var_rows_within(g: GraphV, s0: usize, rp: RelPatternV, tp: NodePatternV, v: Seq<char>, cur: usize, row: RowV,
    mn: usize, mx: Option<usize>, depth: nat, path: Seq<usize>)
    requires
        rp.variable == Some(v),
        tp.variable != Some(v),
        path.len() == depth,
        mx matches Some(m) ==> depth <= m,
        edge_chain(g, s0, path, rp, cur),
    ensures
        forall|k: int| 0 <= k < var_rows(g, seq![(rp, tp)], 0, cur, row, mn, mx, depth, path).len() ==>
            var_row_ok(g, s0, rp, tp, v, #[trigger] var_rows(g, seq![(rp, tp)], 0, cur, row, mn, mx, depth, path)[k], mn, mx),
    decreases 1int, 0int, g.edges.len() + 1 - path.len(), 1int, 0int,
{
    let steps = seq![(rp, tp)];
    let here = if depth >= mn && var_target_ok(g, tp, row, cur) {
        dfs_rows(g, steps, 1, cur, bind(bind(row, rp.variable, ElemV::EdgeArray(path)), tp.variable, ElemV::Node(cur)))
    } else {
        Seq::empty()
    };
    let more = if mx matches Some(m) && depth >= m {
        Seq::empty()
    } else if cur < g.nodes.len() && path.len() <= g.edges.len() {
        var_list(g, steps, 0, cur, row, mn, mx, depth, path, g.nodes[cur as int].edges)
    } else {
        Seq::empty()
    };
    let all = var_rows(g, steps, 0, cur, row, mn, mx, depth, path);
    assert(all == here + more);
    if depth >= mn && var_target_ok(g, tp, row, cur) {
        let b = bind(bind(row, rp.variable, ElemV::EdgeArray(path)), tp.variable, ElemV::Node(cur));
        assert(here == seq![b]);
        assert(b.contains_key(v) && b[v] == ElemV::EdgeArray(path));
        assert(edge_chain(g, s0, b[v]->EdgeArray_0, rp, cur) && target_matches(g, cur as int, tp));
        assert(var_row_ok(g, s0, rp, tp, v, b, mn, mx));
    }
    if !(mx matches Some(m) && depth >= m) && cur < g.nodes.len() && path.len() <= g.edges.len() {
        lemma_var_list_within(g, s0, rp, tp, v, cur, row, mn, mx, depth, path, g.nodes[cur as int].edges);
    }
    assert forall|k: int| 0 <= k < all.len() implies var_row_ok(g, s0, rp, tp, v, #[trigger] all[k], mn, mx) by {
        if k < here.len() {
            assert(all[k] == here[k]);
        } else {
            assert(all[k] == more[k - here.len()]);
        }
    }
}

proof fn lemma_var_list_within(g: GraphV, s0: usize, rp: RelPatternV, tp: NodePatternV, v: Seq<char>, cur: usize, row: RowV,
    mn: usize, mx: Option<usize>, depth: nat, path: Seq<usize>, es: Seq<usize>)
    requires
        rp.variable == Some(v),
        tp.variable != Some(v),
        path.len() == depth,
        mx matches Some(m) ==> depth < m,
        edge_chain(g, s0, path, rp, cur),
    ensures
        forall|k: int| 0 <= k < var_list(g, seq![(rp, tp)], 0, cur, row, mn, mx, depth, path, es).len() ==>
            var_row_ok(g, s0, rp, tp, v, #[trigger] var_list(g, seq![(rp, tp)], 0, cur, row, mn, mx, depth, path, es)[k], mn, mx),
    decreases 1int, 0int, g.edges.len() + 1 - path.len(), 0int, es.len(),
{
    let steps = seq![(rp, tp)];
    if !(es.len() == 0 || path.len() >= g.edges.len()) {
        let e = es.last();
        let prev = var_list(g, steps, 0, cur, row, mn, mx, depth, path, es.drop_last());
        lemma_var_list_within(g, s0, rp, tp, v, cur, row, mn, mx, depth, path, es.drop_last());
        if var_step_ok(g, rp, cur, path, e) {
            lemma_chain_push(g, s0, path, rp, cur, e);
            let next = var_rows(g, steps, 0, g.edges[e as int].end, row, mn, mx, depth + 1, path.push(e));
            lemma_var_rows_within(g, s0, rp, tp, v, g.edges[e as int].end, row, mn, mx, depth + 1, path.push(e));
            let all = var_list(g, steps, 0, cur, row, mn, mx, depth, path, es);
            assert(all == prev + next);
            assert forall|k: int| 0 <= k < all.len() implies var_row_ok(g, s0, rp, tp, v, #[trigger] all[k], mn, mx) by {
                if k < prev.len() {
                    assert(all[k] == prev[k]);
                } else {
                    assert(all[k] == next[k - prev.len()]);
                }
            }
        }
    }
}

/// A variable-length step `*mn..mx` only gives paths within its bounds: matching one such step
/// from node `s0`, every row binds the relationship variable to a directed path of distinct
/// edges matching the relationship pattern, leaving `s0`, of at least `mn` edges and of at most
/// `mx` when there is an upper bound (a path is never followed further once it has `mx` edges),
/// and ending at a node that matches the target pattern (the node the row binds the target's
/// variable to).
pub proof fn law_var_length_within_bounds(g: GraphV, rp: RelPatternV, tp: NodePatternV, v: Seq<char>, s0: usize, row: RowV,
    mn: usize, mx: Option<usize>)
    requires
        rp.length == Some((mn, mx)),
        !(mn == 1 && mx == Some(1usize)),
        rp.variable == Some(v),
        tp.variable != Some(v),
    ensures
        forall|k: int| 0 <= k < dfs_rows(g, seq![(rp, tp)], 0, s0, row).len() ==>
            var_row_ok(g, s0, rp, tp, v, #[trigger] dfs_rows(g, seq![(rp, tp)], 0, s0, row)[k], mn, mx),
{
    assert(dfs_rows(g, seq![(rp, tp)], 0, s0, row) == var_rows(g, seq![(rp, tp)], 0, s0, row, mn, mx, 0, Seq::empty()));
    assert(edge_chain(g, s0, Seq::<usize>::empty(), rp, s0));
    lemma_var_rows_within(g, s0, rp, tp, v, s0, row, mn, mx, 0, Seq::empty());
}

/// `x` first occurs in `s` at position `i`.
pub open spec fn first_at(s: Seq<ElemV>, x: ElemV, i: int) -> bool {
    0 <= i < s.len() && s[i] == x && forall|j: int| 0 <= j < i ==> s[j] != x
}

/// What `dedup` keeps: no value twice, exactly the values of the list, in the order of their
/// first occurrences.
proof fn lemma_dedup(s: Seq<ElemV>)
    ensures
        dedup(s).no_duplicates(),
        forall|x: ElemV| dedup(s).contains(x) <==> s.contains(x),
        forall|a: int, b: int, ia: int, ib: int| 0 <= a < b < dedup(s).len()
            && #[trigger] first_at(s, dedup(s)[a], ia) && #[trigger] first_at(s, dedup(s)[b], ib) ==> ia < ib,
    decreases s.len(),
{
    if s.len() > 0 {
        let s1 = s.drop_last();
        let d = dedup(s1);
        lemma_dedup(s1);
        assert forall|x: ElemV| s.contains(x) <==> (s1.contains(x) || x == s.last()) by {
            if s.contains(x) {
                let i = choose|i: int| 0 <= i < s.len() && s[i] == x;
                if i < s.len() - 1 {
                    assert(s1[i] == x);
                }
            }
            if s1.contains(x) {
                let i = choose|i: int| 0 <= i < s.len() - 1 && s1[i] == x;
                assert(s[i] == x);
            }
            if x == s.last() {
                assert(s[s.len() - 1] == x);
            }
        }
        // A value of the prefix first occurs in `s` where it first occurs in the prefix.
        assert forall|y: ElemV, i: int| s1.contains(y) && first_at(s, y, i) implies first_at(s1, y, i) && i < s1.len() by {
            let j = choose|j: int| 0 <= j < s1.len() && s1[j] == y;
            assert(s[j] == y);
            if i > j {
                assert(s[j] != y);
            }
            assert forall|q: int| 0 <= q < i implies s1[q] != y by {
                assert(s[q] != y);
            }
        }
        if !d.contains(s.last()) {
            let t = d.push(s.last());
            assert forall|i: int, j: int| 0 <= i < t.len() && 0 <= j < t.len() && i != j implies t[i] != t[j] by {
                if i == d.len() {
                    assert(t[j] == d[j]);
                } else if j == d.len() {
                    assert(t[i] == d[i]);
                } else {
                    assert(t[i] == d[i] && t[j] == d[j]);
                }
            }
            assert forall|x: ElemV| t.contains(x) <==> (d.contains(x) || x == s.last()) by {
                if t.contains(x) {
                    let i = choose|i: int| 0 <= i < t.len() && t[i] == x;
                    if i < d.len() {
                        assert(d[i] == x);
                    }
                }
                if d.contains(x) {
                    let i = choose|i: int| 0 <= i < d.len() && d[i] == x;
                    assert(t[i] == x);
                }
                if x == s.last() {
                    assert(t[d.len() as int] == x);
                }
            }
            assert forall|a: int, b: int, ia: int, ib: int| 0 <= a < b < t.len()
                && #[trigger] first_at(s, t[a], ia) && #[trigger] first_at(s, t[b], ib) implies ia < ib by {
                assert(t[a] == d[a]);
                assert(d.contains(d[a]));
                assert(s1.contains(t[a]));
                if b < d.len() {
                    assert(t[b] == d[b]);
                    assert(d.contains(d[b]));
                    assert(first_at(s1, d[a], ia) && first_at(s1, d[b], ib));
                } else {
                    assert(first_at(s1, t[a], ia) && ia < s1.len());
                    assert(t[b] == s.last());
                    if ib < s1.len() {
                        assert(s1[ib] == s.last());
                        assert(s1.contains(s.last()));
                    }
                }
            }
        } else {
            assert forall|a: int, b: int, ia: int, ib: int| 0 <= a < b < d.len()
                && #[trigger] first_at(s, d[a], ia) && #[trigger] first_at(s, d[b], ib) implies ia < ib by {
                assert(d.contains(d[a]) && d.contains(d[b]));
                assert(first_at(s1, d[a], ia) && first_at(s1, d[b], ib));
            }
        }
    }
}

/// `UNIQUE(x)` of a group is `COLLECT(x)` without repeats: each binds one list, the first has
/// no value twice, holds exactly the values of the second, and lists them in the order in
/// which they first occur in the second.
pub proof fn law_unique_is_collect_without_repeats(nodes: Seq<Node>, edges: Seq<Edge>, rows: Seq<RowV>, ms: Seq<int>, i: int,
    var: Seq<char>, a1: Option<Seq<char>>, a2: Option<Seq<char>>)
    ensures
        ({
            let u = group_item(nodes, edges, rows, ms, i, ItemV::Aggregate { func: "UNIQUE"@, var: var, alias: a1 });
            let c = group_item(nodes, edges, rows, ms, i, ItemV::Aggregate { func: "COLLECT"@, var: var, alias: a2 });
            &&& u.len() == 1 && c.len() == 1
            &&& u[0].1 is List && c[0].1 is List
            &&& u[0].1->List_0.no_duplicates()
            &&& forall|x: ElemV| u[0].1->List_0.contains(x) <==> c[0].1->List_0.contains(x)
            &&& forall|a: int, b: int, ia: int, ib: int| 0 <= a < b < u[0].1->List_0.len()
                && #[trigger] first_at(c[0].1->List_0, u[0].1->List_0[a], ia) && #[trigger] first_at(c[0].1->List_0, u[0].1->List_0[b], ib)
                ==> ia < ib
        }),
{
    reveal_strlit("UNIQUE");
    reveal_strlit("COLLECT");
    reveal_strlit("COUNT");
    assert("UNIQUE"@ != "COUNT"@ && "UNIQUE"@ != "COLLECT"@ && "COLLECT"@ != "COUNT"@) by {
        assert("UNIQUE"@[1] != "COUNT"@[1]);
        assert("UNIQUE"@[0] != "COLLECT"@[0]);
        assert("COLLECT"@[1] == 'O' && "COUNT"@[2] != "COLLECT"@[2]);
    }
    lemma_dedup(bound_vals(rows, ms, var));
}

/// The sign item `k` of the sort order gives two rows' keys: the order of their values, reversed
/// for a descending item.
pub open spec fn item_sign(a: Seq<EvalV>, b: Seq<EvalV>, order: Seq<OrderItemV>, k: int) -> int {
    if order[k].asc { order_sign(a[k], b[k]) } else { -order_sign(a[k], b[k]) }
}

proof fn lemma_keys_sign_from(a: Seq<EvalV>, b: Seq<EvalV>, order: Seq<OrderItemV>, k: nat, j: int)
    requires
        k <= j <= order.len(),
        forall|q: int| k <= q < j ==> #[trigger] item_sign(a, b, order, q) == 0,
    ensures
        j < order.len() ==> keys_sign(a, b, order, k) == (if item_sign(a, b, order, j) != 0 { item_sign(a, b, order, j) } else { keys_sign(a, b, order, (j + 1) as nat) }),
        j == order.len() ==> keys_sign(a, b, order, k) == 0,
    decreases j - k,
{
    if k < j {
        assert(item_sign(a, b, order, k as int) == 0);
        lemma_keys_sign_from(a, b, order, k + 1, j);
    }
}

/// `ORDER BY` compares two rows' keys item by item: the first item on which they differ decides
/// (reversed when it sorts descending), and rows that tie on every item compare equal.
pub proof fn law_order_keys_lexicographic(a: Seq<EvalV>, b: Seq<EvalV>, order: Seq<OrderItemV>, j: int)
    requires
        0 <= j <= order.len(),
        forall|q: int| 0 <= q < j ==> #[trigger] item_sign(a, b, order, q) == 0,
    ensures
        j < order.len() && item_sign(a, b, order, j) != 0 ==> keys_sign(a, b, order, 0) == item_sign(a, b, order, j),
        j == order.len() ==> keys_sign(a, b, order, 0) == 0,
{
    lemma_keys_sign_from(a, b, order, 0, j);
}

/// Where `insert_at` puts an entry: after every entry from `j` on that does not sort after it,
/// before the first that does.
proof fn lemma_insert_at(sorted: Seq<(Seq<EvalV>, int)>, x: (Seq<EvalV>, int), order: Seq<OrderItemV>, j: nat)
    requires
        j <= sorted.len(),
    ensures
        j <= insert_at(sorted, x, order, j) <= sorted.len(),
        forall|q: int| j <= q < insert_at(sorted, x, order, j) ==> keys_sign(#[trigger] sorted[q].0, x.0, order, 0) <= 0,
        insert_at(sorted, x, order, j) < sorted.len() ==> keys_sign(sorted[insert_at(sorted, x, order, j) as int].0, x.0, order, 0) > 0,
    decreases sorted.len() - j,
{
    if j < sorted.len() && keys_sign(sorted[j as int].0, x.0, order, 0) <= 0 {
        lemma_insert_at(sorted, x, order, j + 1);
    }
}

/// The sort keys of the entries are totally preordered: two entries compare opposite ways round
/// with opposite signs, and "not after" chains.
pub open spec fn keys_preordered(es: Seq<(Seq<EvalV>, int)>, order: Seq<OrderItemV>) -> bool {
    &&& forall|a: int, b: int| 0 <= a < es.len() && 0 <= b < es.len() ==>
        keys_sign(#[trigger] es[a].0, #[trigger] es[b].0, order, 0) == -keys_sign(es[b].0, es[a].0, order, 0)
    &&& forall|a: int, b: int, c: int| 0 <= a < es.len() && 0 <= b < es.len() && 0 <= c < es.len()
        && keys_sign(#[trigger] es[a].0, #[trigger] es[b].0, order, 0) <= 0 && keys_sign(es[b].0, #[trigger] es[c].0, order, 0) <= 0
        ==> keys_sign(es[a].0, es[c].0, order, 0) <= 0
}

/// The entries come out sorted and stable: in order of their keys, entries that tie in the
/// order they came in, and each entry exactly once.
pub open spec fn sorted_stably(out: Seq<(Seq<EvalV>, int)>, es: Seq<(Seq<EvalV>, int)>, order: Seq<OrderItemV>) -> bool {
    &&& out.len() == es.len()
    &&& forall|k: int| 0 <= k < out.len() ==> 0 <= (#[trigger] out[k]).1 < es.len() && out[k] == es[out[k].1]
    &&& forall|a: int, b: int| 0 <= a < b < out.len() ==> (#[trigger] out[a]).1 != (#[trigger] out[b]).1
    &&& forall|a: int, b: int| 0 <= a < b < out.len() ==> keys_sign(#[trigger] out[a].0, #[trigger] out[b].0, order, 0) <= 0
    &&& forall|a: int, b: int| 0 <= a < b < out.len() && keys_sign(#[trigger] out[a].0, #[trigger] out[b].0, order, 0) == 0
        ==> out[a].1 < out[b].1
}

/// Dropping the last entry keeps the keys preordered.
proof fn lemma_preordered_prefix(es: Seq<(Seq<EvalV>, int)>, order: Seq<OrderItemV>)
    requires
        es.len() > 0,
        keys_preordered(es, order),
    ensures
        keys_preordered(es.drop_last(), order),
{
    let s0 = es.drop_last();
    assert forall|a: int, b: int| 0 <= a < s0.len() && 0 <= b < s0.len() implies
        keys_sign(#[trigger] s0[a].0, #[trigger] s0[b].0, order, 0) == -keys_sign(s0[b].0, s0[a].0, order, 0) by {
        assert(s0[a] == es[a] && s0[b] == es[b]);
        assert(keys_sign(es[a].0, es[b].0, order, 0) == -keys_sign(es[b].0, es[a].0, order, 0));
    }
    assert forall|a: int, b: int, c: int| 0 <= a < s0.len() && 0 <= b < s0.len() && 0 <= c < s0.len()
        && keys_sign(#[trigger] s0[a].0, #[trigger] s0[b].0, order, 0) <= 0 && keys_sign(s0[b].0, #[trigger] s0[c].0, order, 0) <= 0
        implies keys_sign(s0[a].0, s0[c].0, order, 0) <= 0 by {
        assert(s0[a] == es[a] && s0[b] == es[b] && s0[c] == es[c]);
        assert(keys_sign(es[a].0, es[b].0, order, 0) <= 0);
        assert(keys_sign(es[b].0, es[c].0, order, 0) <= 0);
    }
}

#[verifier::spinoff_prover]
#[verifier::rlimit(50)]
proof fn lemma_isort(es: Seq<(Seq<EvalV>, int)>, order: Seq<OrderItemV>)
    requires
        forall|i: int| 0 <= i < es.len() ==> (#[trigger] es[i]).1 == i,
        keys_preordered(es, order),
    ensures
        sorted_stably(isort(es, order), es, order),
    decreases es.len(),
{
    if es.len() > 0 {
        let n = es.len() - 1;
        let s0 = es.drop_last();
        assert forall|i: int| 0 <= i < s0.len() implies (#[trigger] s0[i]).1 == i by {
            assert(s0[i] == es[i]);
        }
        lemma_preordered_prefix(es, order);
        lemma_isort(s0, order);
        let t = isort(s0, order);
        let x = es.last();
        let p = insert_at(t, x, order, 0);
        lemma_insert_at(t, x, order, 0);
        let out = isort(es, order);
        assert(out == t.insert(p as int, x));
        t.insert_ensures(p as int, x);
        // Where each output entry comes from.
        let src = |k: int| if k < p { k } else { k - 1 };
        assert forall|k: int| 0 <= k < out.len() && k != p implies #[trigger] out[k] == t[src(k)] by {
            if k > p {
                assert(out[(k - 1) + 1] == t[k - 1]);
            }
        }
        assert(out[p as int] == x);
        assert(x.1 == n);
        assert forall|k: int| 0 <= k < out.len() implies 0 <= (#[trigger] out[k]).1 < es.len() && out[k] == es[out[k].1] by {
            if k != p {
                let y = t[src(k)];
                assert(0 <= y.1 < s0.len() && y == s0[y.1]);
                assert(s0[y.1] == es[y.1]);
            }
        }
        // Facts on the entries, through their positions in `es`.
        assert forall|k: int| 0 <= k < out.len() implies keys_sign(x.0, (#[trigger] out[k]).0, order, 0) == -keys_sign(out[k].0, x.0, order, 0) by {
            let y = out[k];
            assert(es[y.1] == y && es[n] == x);
            assert(keys_sign(es[n].0, es[y.1].0, order, 0) == -keys_sign(es[y.1].0, es[n].0, order, 0));
        }
        assert forall|a: int, b: int| 0 <= a < b < out.len() implies (#[trigger] out[a]).1 != (#[trigger] out[b]).1 by {
            if a != p && b != p {
                if src(a) < src(b) {
                    assert(t[src(a)].1 != t[src(b)].1);
                }
            } else if a == p {
                assert(t[src(b)].1 < n);
            } else {
                assert(t[src(a)].1 < n);
            }
        }
        assert forall|a: int, b: int| 0 <= a < b < out.len() implies keys_sign(#[trigger] out[a].0, #[trigger] out[b].0, order, 0) <= 0
            && (keys_sign(out[a].0, out[b].0, order, 0) == 0 ==> out[a].1 < out[b].1) by {
            if a != p && b != p {
                assert(src(a) < src(b));
                assert(keys_sign(t[src(a)].0, t[src(b)].0, order, 0) <= 0);
            } else if b == p {
                // an entry before the inserted one
                assert(keys_sign(t[a].0, x.0, order, 0) <= 0);
                assert(t[a].1 < n);
            } else {
                // the inserted one before an entry
                let y = t[b - 1];
                assert(p < t.len());
                let z = t[p as int];
                assert(keys_sign(z.0, x.0, order, 0) > 0);
                assert(keys_sign(x.0, z.0, order, 0) < 0) by {
                    assert(out[p as int + 1] == z);
                }
                if b - 1 > p {
                    assert(keys_sign(z.0, y.0, order, 0) <= 0);
                    assert(es[z.1] == z && es[y.1] == y && es[n] == x);
                    assert(keys_sign(es[n].0, es[z.1].0, order, 0) <= 0);
                    assert(keys_sign(es[z.1].0, es[y.1].0, order, 0) <= 0);
                    assert(keys_sign(x.0, y.0, order, 0) <= 0);
                    if keys_sign(x.0, y.0, order, 0) == 0 {
                        assert(keys_sign(y.0, x.0, order, 0) == 0) by {
                            assert(out[b] == y);
                        }
                        assert(keys_sign(es[z.1].0, es[y.1].0, order, 0) <= 0 && keys_sign(es[y.1].0, es[n].0, order, 0) <= 0);
                        assert(keys_sign(z.0, x.0, order, 0) <= 0);
                    }
                }
            }
        }
    }
}

/// `ORDER BY` sorts stably: when the rows' sort keys are totally preordered (two rows compare
/// opposite ways round with opposite signs, and "not after" chains), the sorted entries hold
/// every row once, each row's keys do not sort after those of any row behind it, and rows whose
/// keys tie keep the order they came in.
pub proof fn law_order_by_sorts_stably(g: Graph, rows: Seq<RowV>, order: Seq<OrderItemV>)
    requires
        keys_preordered(sort_entries(g, rows, order), order),
    ensures
        sorted_stably(isort(sort_entries(g, rows, order), order), sort_entries(g, rows, order), order),
{
    lemma_isort(sort_entries(g, rows, order), order);
}

/// `AND`, `OR` and `NOT` in a condition mean what they say: a row satisfies `l OR r` exactly when
/// it satisfies `l` or `r`, `l AND r` exactly when it satisfies both, and `NOT c` exactly when
/// it does not satisfy `c`.
pub proof fn law_condition_connectives(nodes: Seq<Node>, edges: Seq<Edge>, row: RowV, l: CondV, r: CondV)
    ensures
        cond_holds(nodes, edges, row, CondV::Or(Box::new(l), Box::new(r)))
            == (cond_holds(nodes, edges, row, l) || cond_holds(nodes, edges, row, r)),
        cond_holds(nodes, edges, row, CondV::And(Box::new(l), Box::new(r)))
            == (cond_holds(nodes, edges, row, l) && cond_holds(nodes, edges, row, r)),
        cond_holds(nodes, edges, row, CondV::Not(Box::new(l))) == !cond_holds(nodes, edges, row, l),
{
}

/// `<=` and `>=` are `<` or `=`, and `>` or `=`: for any two values, `a <= b` holds exactly when
/// `a < b` or `a = b` does, and `a >= b` exactly when `a > b` or `a = b` does.
pub proof fn law_non_strict_comparisons(a: EvalV, b: EvalV)
    ensures
        compare_spec(a, b, CompareOp::Lte) == (compare_spec(a, b, CompareOp::Lt) || compare_spec(a, b, CompareOp::Eq)),
        compare_spec(a, b, CompareOp::Gte) == (compare_spec(a, b, CompareOp::Gt) || compare_spec(a, b, CompareOp::Eq)),
{
}

/// Each comparison operator parses to the operator it spells: after any white space, `>=` gives
/// `Gte`, `<=` `Lte`, `!=` `Neq`, `>` not followed by `=` gives `Gt`, `<` not followed by `=`
/// `Lt`, and `=` `Eq`; parsing goes on after the operator and the white space behind it.
pub proof fn law_compare_tokens(s: Seq<char>, i: int)
    requires
        0 <= i <= s.len(),
    ensures
        ({
            let j = skip_ws(s, i);
            let two = |a: char, b: char| j + 1 < s.len() && s[j] == a && s[j + 1] == b;
            let one = |a: char| j < s.len() && s[j] == a && !(j + 1 < s.len() && s[j + 1] == '=');
            &&& two('>', '=') ==> sp_compare_op(s, i) == Some((CompareOp::Gte, skip_ws(s, j + 2)))
            &&& two('<', '=') ==> sp_compare_op(s, i) == Some((CompareOp::Lte, skip_ws(s, j + 2)))
            &&& two('!', '=') ==> sp_compare_op(s, i) == Some((CompareOp::Neq, skip_ws(s, j + 2)))
            &&& one('>') ==> sp_compare_op(s, i) == Some((CompareOp::Gt, skip_ws(s, j + 1)))
            &&& one('<') ==> sp_compare_op(s, i) == Some((CompareOp::Lt, skip_ws(s, j + 1)))
            &&& (j < s.len() && s[j] == '=') ==> sp_compare_op(s, i) == Some((CompareOp::Eq, skip_ws(s, j + 1)))
        }),
{
    let j = skip_ws(s, i);
    lemma_skip_ws(s, i);
    if j + 1 < s.len() {
        let w = s.subrange(j, j + 2);
        if s[j] == '>' && s[j + 1] == '=' { assert(w =~= seq!['>', '=']); }
        if s[j] == '<' && s[j + 1] == '=' { assert(w =~= seq!['<', '=']); }
        if s[j] == '!' && s[j + 1] == '=' { assert(w =~= seq!['!', '=']); }
        assert(w[0] == s[j] && w[1] == s[j + 1]);
    }
}

} // verus!
