use vstd::prelude::*;
use crate::graph::model::{after_txid, GraphV};
use crate::graph::{logged_since, redoes, lemma_redoes_refl, lemma_redoes_trans, Graph};
use crate::graph::element::{ElemV, GraphElement};
use crate::graph::json::{
    elem_json, json_array, json_object, json_quoted, lemma_array_loop, lemma_object_loop, push_array_end, push_item_start,
    push_json_quoted, push_member_start, push_object_end,
};
use crate::graph::matching::RowV;
use crate::graph::project::{
    expand_items, expanded_items, group_rows, item_key, item_key_exec, order_rows, project_groups, project_simple,
    simple_row, sorted_rows,
};
use crate::graph::result_set::ResultSet;
use crate::keyed::keys_sorted;
use crate::parser::{items_view, names_view, opt_order_view, ItemV, OrderItem, OrderItemV, ProjectionItem};
use crate::text::{append, debug_quoted, push_debug_quoted};
use crate::graph::result_set::Row;
use crate::parser::clauses::{parse_error_input, parse_query, sp_query};
use crate::planner::{flat_clauses, steps_wf_all, step_for, step_wf, ExecutionStep, QueryPlanner};
use crate::graph::execute::run_unwind;

verus! {

// ---------------------------------------------------------------------------------------------
// Projection (`WITH` and `RETURN`).

/// Some item is an aggregate.
pub open spec fn has_aggregate(items: Seq<ItemV>) -> bool {
    exists|i: int| 0 <= i < items.len() && #[trigger] items[i] is Aggregate
}

/// The rows the items project: one per group when there is an aggregate, else one per row.
pub open spec fn projected(g: Graph, rows: Seq<RowV>, items: Seq<ItemV>) -> Seq<RowV> {
    if has_aggregate(items) {
        group_rows(g.nodes@, g.edges@, rows, items)
    } else {
        rows.map_values(|r: RowV| simple_row(g.nodes@, g.edges@, r, items))
    }
}

/// The rows of a projection step: the items (with `*` expanded) projected, then ordered.
pub open spec fn project_result(g: Graph, rows: Seq<RowV>, columns: Seq<Seq<char>>, items: Seq<ItemV>,
    order: Option<Seq<OrderItemV>>) -> Seq<RowV> {
    let p = projected(g, rows, expanded_items(items, columns));
    match order {
        Some(o) => sorted_rows(g, p, o),
        None => p,
    }
}

/// Some item is an aggregate (see `has_aggregate`).
fn has_aggregate_exec(items: &Vec<ProjectionItem>) -> (r: bool)
    ensures
        r == has_aggregate(items_view(items@)),
{
    let mut i: usize = 0;
    while i < items.len()
        invariant
            i <= items@.len(),
            forall|j: int| 0 <= j < i ==> !(#[trigger] items_view(items@)[j] is Aggregate),
        decreases items@.len() - i,
    {
        if matches!(items[i], ProjectionItem::Aggregate { .. }) {
            assert(items_view(items@)[i as int] is Aggregate);
            return true;
        }
        i = i + 1;
    }
    false
}

impl Graph {
    /// Runs the projection of a `WITH` or `RETURN` step (see `project_result`); gives the items
    /// projected (with `*` expanded) and the rows.
    pub fn run_project(&self, items: &Vec<ProjectionItem>, order: &Option<Vec<OrderItem>>, rs: &ResultSet)
        -> (r: (Vec<ProjectionItem>, ResultSet))
        requires
            self.wf(),
            rs.wf(),
        ensures
            items_view(r.0@) == expanded_items(items_view(items@), rs@.columns),
            r.1.wf(),
            r.1@.rows == project_result(*self, rs@.rows, rs@.columns, items_view(items@), opt_order_view(*order)),
    {
        let its = expand_items(items, rs);
        let res = if has_aggregate_exec(&its) { project_groups(self, &its, rs) } else { project_simple(self, &its, rs) };
        let res = match order {
            Some(o) => order_rows(self, o, &res),
            None => res,
        };
        (its, res)
    }
}

// ---------------------------------------------------------------------------------------------
// The results of `RETURN` as JSON.

/// The names the items are bound under.
pub open spec fn item_key_set(items: Seq<ItemV>) -> Set<Seq<char>> {
    Set::new(|k: Seq<char>| exists|i: int| 0 <= i < items.len() && item_key(#[trigger] items[i]) == Some(k))
}

/// A result row as a JSON object at depth 1: each name in `ks`, with the element the row binds
/// it to, or `null`.
pub open spec fn row_object(g: Graph, row: RowV, ks: Seq<Seq<char>>) -> Seq<char> {
    json_object(ks.map_values(|k: Seq<char>| (k, if row.contains_key(k) { elem_json(g.nodes@, g.edges@, row[k], 2) } else { "null"@ })), 1)
}

/// The first `limit` rows when one is given.
pub open spec fn shown(rows: Seq<RowV>, limit: Option<usize>) -> Seq<RowV> {
    match limit {
        Some(l) => if rows.len() <= l { rows } else { rows.subrange(0, l as int) },
        None => rows,
    }
}

/// The JSON array of the shown rows under the names `ks`; nothing when there are no names or no
/// rows.
pub open spec fn results_text(g: Graph, rows: Seq<RowV>, ks: Seq<Seq<char>>, limit: Option<usize>) -> Seq<char> {
    let r = shown(rows, limit);
    if ks.len() == 0 || r.len() == 0 {
        Seq::empty()
    } else {
        json_array(r.map_values(|row: RowV| row_object(g, row, ks)), 0)
    }
}

/// The names the items are bound under, in strictly increasing order.
fn result_keys(items: &Vec<ProjectionItem>) -> (r: Vec<String>)
    ensures
        keys_sorted(names_view(r@)),
        names_view(r@).to_set() == item_key_set(items_view(items@)),
{
    let ghost iv = items_view(items@);
    let mut keys: Vec<String> = Vec::new();
    proof {
        assert(names_view(keys@).to_set() =~= Set::<Seq<char>>::empty());
    }
    let mut i: usize = 0;
    while i < items.len()
        invariant
            iv == items_view(items@),
            i <= items@.len(),
            keys_sorted(names_view(keys@)),
            names_view(keys@).to_set() == item_key_set(iv.subrange(0, i as int)),
        decreases items@.len() - i,
    {
        let ghost before = names_view(keys@).to_set();
        let k = item_key_exec(&items[i]);
        match k {
            Some(name) => {
                crate::planner::insert_sorted(&mut keys, &name);
                proof {
                    assert(item_key_set(iv.subrange(0, i as int + 1)) =~= before.insert(name@)) by {
                        assert(iv.subrange(0, i as int + 1)[i as int] == iv[i as int]);
                        assert forall|x: Seq<char>| item_key_set(iv.subrange(0, i as int + 1)).contains(x) implies before.insert(name@).contains(x) by {
                            let j = choose|j: int| 0 <= j < i + 1 && item_key(#[trigger] iv.subrange(0, i as int + 1)[j]) == Some(x);
                            if j < i {
                                assert(iv.subrange(0, i as int)[j] == iv.subrange(0, i as int + 1)[j]);
                            }
                        }
                        assert forall|x: Seq<char>| before.insert(name@).contains(x) implies item_key_set(iv.subrange(0, i as int + 1)).contains(x) by {
                            if x != name@ {
                                let j = choose|j: int| 0 <= j < i && item_key(#[trigger] iv.subrange(0, i as int)[j]) == Some(x);
                                assert(iv.subrange(0, i as int + 1)[j] == iv.subrange(0, i as int)[j]);
                            }
                        }
                    }
                }
            },
            None => {
                proof {
                    assert(item_key_set(iv.subrange(0, i as int + 1)) =~= before) by {
                        assert forall|x: Seq<char>| item_key_set(iv.subrange(0, i as int + 1)).contains(x) implies before.contains(x) by {
                            let j = choose|j: int| 0 <= j < i + 1 && item_key(#[trigger] iv.subrange(0, i as int + 1)[j]) == Some(x);
                            assert(iv.subrange(0, i as int)[j] == iv.subrange(0, i as int + 1)[j]);
                        }
                        assert forall|x: Seq<char>| before.contains(x) implies item_key_set(iv.subrange(0, i as int + 1)).contains(x) by {
                            let j = choose|j: int| 0 <= j < i && item_key(#[trigger] iv.subrange(0, i as int)[j]) == Some(x);
                            assert(iv.subrange(0, i as int + 1)[j] == iv.subrange(0, i as int)[j]);
                        }
                    }
                }
            },
        }
        i = i + 1;
    }
    assert(iv.subrange(0, items@.len() as int) =~= iv);
    keys
}

impl Graph {
    /// Appends row `i` of the results as a JSON object (see `row_object`).
    fn push_row_object(&self, s: &mut String, res: &ResultSet, i: usize, keys: &Vec<String>)
        requires
            self.wf(),
            res.wf(),
            i < res@.rows.len(),
            keys@.len() > 0,
        ensures
            final(s)@ == old(s)@ + row_object(*self, res@.rows[i as int], names_view(keys@)),
    {
        let ghost row = res@.rows[i as int];
        let ghost ks = names_view(keys@);
        let ghost ms = ks.map_values(|k: Seq<char>| (k, if row.contains_key(k) { elem_json(self.nodes@, self.edges@, row[k], 2) } else { "null"@ }));
        let mut q: usize = 0;
        while q < keys.len()
            invariant
                self.wf(),
                res.wf(),
                i < res@.rows.len(),
                row == res@.rows[i as int],
                ks == names_view(keys@),
                ms == ks.map_values(|k: Seq<char>| (k, if row.contains_key(k) { elem_json(self.nodes@, self.edges@, row[k], 2) } else { "null"@ })),
                keys@.len() > 0,
                q <= keys@.len(),
                q > 0 ==> s@ == old(s)@ + "{\n"@ + crate::graph::display::join(ms.subrange(0, q as int).map_values(
                    |m: (Seq<char>, Seq<char>)| crate::graph::json::ind(crate::graph::json::next_depth(1)) + json_quoted(m.0) + ": "@ + m.1), ",\n"@),
                q == 0 ==> s@ == old(s)@,
            decreases keys@.len() - q,
        {
            let ghost before = s@;
            push_member_start(s, q, 1, keys[q].as_str());
            match res.get(i, keys[q].as_str()) {
                Some(e) => self.push_element_json(s, e, 2),
                None => append(s, "null"),
            }
            proof {
                assert(ks[q as int] == keys@[q as int]@);
                lemma_object_loop(old(s)@, ms, q as int, 1, before, s@);
            }
            q = q + 1;
        }
        push_object_end(s, 1);
        assert(ms.subrange(0, keys@.len() as int) =~= ms);
    }

    /// The results of a `RETURN` as JSON (see `results_text`): the rows (the first `limit` of
    /// them) as objects under the items' names in increasing order.
    pub fn results_json(&self, res: &ResultSet, items: &Vec<ProjectionItem>, limit: Option<usize>) -> (r: String)
        requires
            self.wf(),
            res.wf(),
        ensures
            exists|ks: Seq<Seq<char>>| keys_sorted(ks) && ks.to_set() == item_key_set(items_view(items@))
                && r@ == results_text(*self, res@.rows, ks, limit),
    {
        let keys = result_keys(items);
        let ghost ks = names_view(keys@);
        let len = res.rows();
        let m = match limit {
            Some(l) => if l < len { l } else { len },
            None => len,
        };
        let ghost sh = shown(res@.rows, limit);
        assert(sh.len() == m);
        let mut s = String::new();
        if keys.len() == 0 || m == 0 {
            assert(s@ =~= results_text(*self, res@.rows, ks, limit));
            return s;
        }
        let ghost objs = sh.map_values(|row: RowV| row_object(*self, row, ks));
        let mut i: usize = 0;
        while i < m
            invariant
                self.wf(),
                res.wf(),
                ks == names_view(keys@),
                keys@.len() > 0,
                sh == shown(res@.rows, limit),
                m == sh.len(),
                m <= res@.rows.len(),
                forall|q: int| 0 <= q < m ==> #[trigger] sh[q] == res@.rows[q],
                objs == sh.map_values(|row: RowV| row_object(*self, row, ks)),
                i <= m,
                i > 0 ==> s@ == "[\n"@ + crate::graph::display::join(objs.subrange(0, i as int).map_values(
                    |x: Seq<char>| crate::graph::json::ind(crate::graph::json::next_depth(0)) + x), ",\n"@),
                i == 0 ==> s@ == Seq::<char>::empty(),
            decreases m - i,
        {
            let ghost before = s@;
            push_item_start(&mut s, i, 0);
            self.push_row_object(&mut s, res, i, &keys);
            proof {
                assert(objs[i as int] == row_object(*self, res@.rows[i as int], ks));
                lemma_array_loop(Seq::empty(), objs, i as int, 0, before, s@);
                assert(Seq::<char>::empty() + "[\n"@ =~= "[\n"@);
            }
            i = i + 1;
        }
        push_array_end(&mut s, 0);
        assert(objs.subrange(0, m as int) =~= objs);
        assert(s@ =~= results_text(*self, res@.rows, ks, limit));
        s
    }
}

// ---------------------------------------------------------------------------------------------
// The answer to a query.

/// The answer: the results (`[]` when there are none), wrapped with the profile text when the
/// query was profiled.
pub open spec fn answer_text(output: Seq<char>, profile: Option<Seq<char>>) -> Seq<char> {
    let results = if output.len() == 0 { "[]"@ } else { output };
    match profile {
        Some(p) => "{\n  \"profile\": "@ + json_quoted(p) + ",\n  \"results\": "@ + results + "\n}"@,
        None => results,
    }
}

/// The answer (see `answer_text`).
pub fn answer(output: &String, profile: &Option<String>) -> (r: String)
    ensures
        r@ == answer_text(output@, match profile { Some(p) => Some(p@), None => None }),
{
    let mut s = String::new();
    match profile {
        Some(p) => {
            append(&mut s, "{\n  \"profile\": ");
            push_json_quoted(&mut s, p.as_str());
            append(&mut s, ",\n  \"results\": ");
            if output.as_str().is_empty() { append(&mut s, "[]"); } else { append(&mut s, output.as_str()); }
            append(&mut s, "\n}");
        },
        None => {
            if output.as_str().is_empty() { append(&mut s, "[]"); } else { append(&mut s, output.as_str()); }
        },
    }
    assert(s@ =~= answer_text(output@, match profile { Some(p) => Some(p@), None => None }));
    s
}

/// The message for a query that did not parse, given the text left over.
pub open spec fn parse_error_text(rest: Seq<char>) -> Seq<char> {
    "Parse error: Parsing Error: Error { input: "@ + debug_quoted(rest) + ", code: Eof }"@
}

/// The message for a query that did not parse (see `parse_error_text`).
fn parse_error_message(e: &crate::parser::ParseError) -> (r: String)
    ensures
        r@ == parse_error_text(e.input@),
{
    let mut s = String::new();
    append(&mut s, "Parse error: Parsing Error: Error { input: ");
    push_debug_quoted(&mut s, e.input.as_str());
    append(&mut s, ", code: Eof }");
    assert(s@ =~= parse_error_text(e.input@));
    s
}

// ---------------------------------------------------------------------------------------------
// Running a query, step by step.

/// Where a query's run is: the rows, their column names, the answer so far, the profile so far,
/// and whether a `MATCH` that left no rows ended the run.
pub struct RunV {
    pub rows: Seq<RowV>,
    pub cols: Seq<Seq<char>>,
    pub out: Seq<char>,
    pub prof: Seq<char>,
    pub done: bool,
}

/// The state a query starts in: one empty row.
pub open spec fn run_start() -> RunV {
    RunV { rows: seq![Map::empty()], cols: Seq::empty(), out: Seq::empty(), prof: Seq::empty(), done: false }
}

/// One step of a query run, taking graph `g` to `g2` and state `st` to `st2`. Once the run has
/// ended nothing changes. Changing steps log exactly their entries (`create_rows`,
/// `merge_rows`, `set_targets`, `delete_log`, an index); `MATCH` keeps the rows its plan finds
/// (and ends the run when there are none), `UNWIND` unwinds, `WITH` projects and keeps at most
/// its limit, `RETURN` projects and, when that gives any text, makes it the answer. The column
/// names are said of no step here: they matter only to `*` alone.
pub open spec fn step_ok(g: Graph, g2: Graph, s: ExecutionStep, st: RunV, st2: RunV) -> bool {
    if st.done {
        g2 == g && st2 == st
    } else {
        match s {
            ExecutionStep::Create(paths) => {
                let cr = crate::graph::execute::create_rows(g@, crate::parser::paths_view(paths@), st.rows, g2@, st.rows.len());
                &&& redoes(g, g2) && logged_since(g, g2) == cr.0.log
                &&& st2 == (RunV { rows: cr.1, cols: st2.cols, ..st })
            },
            ExecutionStep::Match(plan_opt, paths, cond, limit) => match plan_opt {
                Some(p) => {
                    let lim = match cond { Some(_) => None, None => limit };
                    let rows = crate::graph::execute::match_result(g, p, crate::parser::paths_view(paths@),
                        crate::parser::opt_cond_view(cond), limit, st.rows);
                    &&& g2 == g
                    &&& st2 == (RunV { rows: rows, cols: st2.cols,
                        prof: st.prof + crate::graph::plan_exec::plan_profile(g@, p, st.rows, 0, 0, lim),
                        done: rows.len() == 0, ..st })
                },
                None => g2 == g && st2 == st,
            },
            ExecutionStep::Merge(pp) => {
                let pv = crate::graph::execute::planned_view(pp@);
                let mr = crate::graph::execute::merge_rows(g@, pv, st.rows, g2@, st.rows.len());
                &&& redoes(g, g2) && logged_since(g, g2) == mr.0.log
                &&& st2 == (RunV { rows: mr.1, cols: st2.cols,
                    prof: st.prof + crate::graph::execute::merge_rows_profile(g@, pv, st.rows, g2@, st.rows.len()), ..st })
            },
            ExecutionStep::SetProperty(var, key, value) => {
                &&& redoes(g, g2)
                &&& logged_since(g, g2) == crate::graph::execute::set_entries(
                    crate::graph::execute::set_targets(st.rows, var@, g@.nodes.len()), key@, value@)
                &&& st2 == st
            },
            ExecutionStep::Delete(vars) => {
                &&& redoes(g, g2)
                &&& logged_since(g, g2) == crate::graph::execute::delete_log(g@, st.rows, crate::graph::execute::names_view(vars@))
                &&& st2 == st
            },
            ExecutionStep::Unwind(items) => {
                &&& g2 == g
                &&& st2 == (RunV { rows: crate::graph::execute::unwind_rows(st.rows, items_view(items@)), cols: st2.cols, ..st })
            },
            ExecutionStep::With(items, order, limit) => {
                let rows = project_result(g, st.rows, st.cols, items_view(items@), opt_order_view(order));
                &&& g2 == g
                &&& st2 == (RunV { rows: match limit {
                        Some(l) => if l >= rows.len() { rows } else { rows.subrange(0, l as int) },
                        None => rows,
                    }, cols: st2.cols, ..st })
            },
            ExecutionStep::Return(items, order, limit) => {
                let its = expanded_items(items_view(items@), st.cols);
                let rows = project_result(g, st.rows, st.cols, items_view(items@), opt_order_view(order));
                &&& g2 == g
                &&& exists|ks: Seq<Seq<char>>| keys_sorted(ks) && ks.to_set() == item_key_set(its) && {
                    let t = results_text(g, rows, ks, limit);
                    st2 == (RunV { rows: rows, cols: st2.cols, out: if t.len() == 0 { st.out } else { t }, ..st })
                }
            },
            ExecutionStep::CreateIndex { label, property, index_type } => {
                &&& redoes(g, g2)
                &&& logged_since(g, g2) == crate::graph::execute::label_entries(g@.labels, label@).push(
                    crate::graph::types::WalEntryV::CreateIndex {
                        label: crate::graph::execute::label_after(g@.labels, label@), property: property@, index_type: index_type })
                &&& st2 == st
            },
        }
    }
}

/// A run of the steps: graph `gs[k]` and state `sts[k]` before step `k`, each step taking them
/// to the next (see `step_ok`).
pub open spec fn run_ok(steps: Seq<ExecutionStep>, gs: Seq<Graph>, sts: Seq<RunV>) -> bool {
    &&& gs.len() == steps.len() + 1
    &&& sts.len() == steps.len() + 1
    &&& sts[0] == run_start()
    &&& forall|k: int| 0 <= k < steps.len() ==> #[trigger] step_ok(gs[k], gs[k + 1], steps[k], sts[k], sts[k + 1])
}

/// What running query `q` on `g0` may give: it fails, with the graph unchanged, exactly when the
/// text does not parse; else the answer is that of a run of the steps the planner picks for the
/// clauses, from `g0` to `g1` (see `step_for`, `run_ok`), with the results of the last `RETURN`
/// that had any (see `answer_text`) and the profile in front for `PROFILE`. Every change from
/// `g0` to `g1` is logged.
pub open spec fn query_ran(g0: Graph, g1: Graph, q: Seq<char>, r: Result<String, String>) -> bool {
    &&& redoes(g0, g1)
    &&& match r {
        Err(e) => sp_query(q) matches Err(at) && e@ == parse_error_text(parse_error_input(q, at)) && g1 == g0,
        Ok(t) => sp_query(q) matches Ok(qv) && (exists|steps: Seq<ExecutionStep>, gs: Seq<Graph>, sts: Seq<RunV>|
            steps.len() == flat_clauses(qv.clauses).len()
            && (forall|i: int| 0 <= i < steps.len() ==> #[trigger] step_for(steps[i], flat_clauses(qv.clauses)[i], g0@.labels, g0@.indices))
            && run_ok(steps, gs, sts) && gs[0] == g0 && gs.last() == g1
            && t@ == answer_text(sts.last().out, if qv.profile { Some(sts.last().prof) } else { None })),
    }
}

impl Graph {
    /// Runs a query as a transaction of its own: it gets the id `next_txid`, which then moves on
    /// to the next one (wrapping past the largest `u64`, see `after_txid`), and runs with that id
    /// as the running transaction (see `run_query`, `query_ran`): what it creates records it as
    /// creator, what it deletes records it as deleter, and its lookups see what that transaction
    /// sees. The running transaction is then restored.
    pub fn execute(&mut self, query_str: &str) -> (r: Result<String, String>)
        requires
            old(self).wf(),
        ensures
            final(self).wf(),
            final(self).tx == old(self).tx,
            final(self).next_txid == after_txid(old(self).next_txid),
            query_ran((Graph { tx: Some(old(self).next_txid), next_txid: after_txid(old(self).next_txid), ..*old(self) }),
                (Graph { tx: Some(old(self).next_txid), ..*final(self) }), query_str@, r),
    {
        let txid = self.next_txid;
        self.next_txid = if txid == u64::MAX { 0 } else { txid + 1 };
        let saved = self.tx;
        self.tx = Some(txid);
        proof {
            crate::graph::model::lemma_wf_any_tx(old(self)@, Some(txid), self.next_txid);
            assert(self@ == GraphV { tx: Some(txid), next_txid: self.next_txid, ..old(self)@ });
        }
        let ghost start = *self;
        let r = self.run_query(query_str);
        let ghost mid = *self;
        proof {
            assert(query_ran(start, mid, query_str@, r));
            crate::graph::model::lemma_replay_keeps_tx(start@, logged_since(start, mid));
        }
        self.tx = saved;
        proof {
            crate::graph::model::lemma_wf_any_tx(mid@, saved, mid.next_txid);
            assert(self@ == GraphV { tx: saved, ..mid@ });
            assert(mid == (Graph { tx: Some(txid), ..*self }));
        }
        r
    }

    /// Runs a query: parses it (failing, with the graph unchanged, exactly when it does not
    /// parse), plans it, and runs its steps in turn on rows starting from one empty row; a
    /// `MATCH` that leaves no rows ends the run. The answer is the results of the last `RETURN`
    /// that had any (see `results_json`, `answer`), with the profile in front for `PROFILE`; it
    /// is that of a run of steps the planner may choose for the clauses (see `step_for`,
    /// `run_ok`). Every change to the graph is logged.
    #[verifier::rlimit(60)]
    fn run_query(&mut self, query_str: &str) -> (r: Result<String, String>)
        requires
            old(self).wf(),
        ensures
            final(self).wf(),
            redoes(*old(self), *final(self)),
            match r {
                Err(e) => sp_query(query_str@) matches Err(at) && e@ == parse_error_text(parse_error_input(query_str@, at))
                    && *final(self) == *old(self),
                Ok(t) => sp_query(query_str@) matches Ok(qv) && (exists|steps: Seq<ExecutionStep>, gs: Seq<Graph>, sts: Seq<RunV>|
                    steps.len() == flat_clauses(qv.clauses).len()
                    && (forall|i: int| 0 <= i < steps.len() ==> #[trigger] step_for(steps[i], flat_clauses(qv.clauses)[i], old(self)@.labels, old(self)@.indices))
                    && run_ok(steps, gs, sts) && gs[0] == *old(self) && gs.last() == *final(self)
                    && t@ == answer_text(sts.last().out, if qv.profile { Some(sts.last().prof) } else { None })),
            },
    {
        proof { lemma_redoes_refl(*self); }
        let query = match parse_query(query_str) {
            Ok(q) => q,
            Err(e) => {
                return Err(parse_error_message(&e));
            },
        };
        let ghost qv = query@;
        let ghost g0 = *self;
        let mut profile: Option<String> = if query.profile { Some(String::new()) } else { None };
        let mut output = String::new();
        let mut rs = ResultSet::new();
        rs.push_row(&Row::new());
        let plan = QueryPlanner::plan_query(query, &self.labels, &self.indices);
        let ghost steps = plan.steps@;
        let ghost mut gs: Seq<Graph> = seq![*self];
        let ghost mut sts: Seq<RunV> = seq![run_start()];
        let ghost mut gprof: Seq<char> = Seq::empty();
        proof {
            assert(rs@.rows =~= seq![Map::<Seq<char>, ElemV>::empty()]);
            assert(output@ =~= Seq::<char>::empty());
            if rs@.columns.len() > 0 {
                assert(rs@.columns.to_set().contains(rs@.columns[0]));
            }
            assert(rs@.columns =~= Seq::<Seq<char>>::empty());
            if profile is Some { assert(profile.unwrap()@ =~= Seq::<char>::empty()); }
        }
        let n = plan.steps.len();
        let mut k: usize = 0;
        let mut ended = false;
        while k < n
            invariant
                self.wf(),
                redoes(g0, *self),
                rs.wf(),
                steps == plan.steps@,
                steps_wf_all(plan.steps@),
                n == plan.steps@.len(),
                k <= n,
                plan.profile == qv.profile,
                gs.len() == k + 1,
                sts.len() == k + 1,
                gs[0] == g0,
                gs.last() == *self,
                sts[0] == run_start(),
                forall|j: int| 0 <= j < k ==> #[trigger] step_ok(gs[j], gs[j + 1], steps[j], sts[j], sts[j + 1]),
                rs@.rows == sts.last().rows,
                rs@.columns == sts.last().cols,
                output@ == sts.last().out,
                (profile is Some) == qv.profile,
                profile matches Some(p) ==> p@ == sts.last().prof,
                sts.last().prof == gprof,
                sts.last().done == ended,
                ended ==> k == n,
            decreases n - k,
        {
            let ghost g1 = *self;
            let ghost st = sts.last();
            let ghost p_before = profile;
            assert(step_wf(plan.steps@[k as int]));
            match &plan.steps[k] {
                ExecutionStep::Create(paths) => {
                    rs = self.run_create(paths, &rs);
                },
                ExecutionStep::Match(plan_opt, paths, cond, limit) => {
                    match plan_opt {
                        Some(p) => {
                            let ghost lim = match cond { Some(_) => None, None => *limit };
                            proof { gprof = gprof + crate::graph::plan_exec::plan_profile(self@, *p, rs@.rows, 0, 0, lim); }
                            rs = self.run_match(p, paths, cond, *limit, &rs, &mut profile);
                            proof { lemma_redoes_refl(*self); }
                            if rs.is_empty() {
                                ended = true;
                            }
                        },
                        None => {
                            proof { lemma_redoes_refl(*self); }
                        },
                    }
                },
                ExecutionStep::Merge(pp) => {
                    proof {
                        assert forall|q: int| 0 <= q < pp@.len() implies
                            crate::parser::grammar::path_wf(#[trigger] pp@[q].1) && (pp@[q].0 matches Some(pl) ==> crate::planner::plan_wf(pl)) by {
                        }
                    }
                    let ghost rows0 = rs@.rows;
                    rs = self.run_merge(pp, &rs, &mut profile);
                    proof {
                        gprof = gprof + crate::graph::execute::merge_rows_profile(g1@, crate::graph::execute::planned_view(pp@),
                            rows0, self@, rows0.len());
                    }
                },
                ExecutionStep::SetProperty(var, key, value) => {
                    self.run_set(var, key, value, &rs);
                },
                ExecutionStep::Delete(vars) => {
                    self.run_delete(vars, &rs);
                },
                ExecutionStep::Unwind(items) => {
                    rs = run_unwind(items, &rs);
                    proof { lemma_redoes_refl(*self); }
                },
                ExecutionStep::With(items, order, limit) => {
                    let (_its, res) = self.run_project(items, order, &rs);
                    rs = res;
                    match limit {
                        Some(l) => rs.truncate(*l),
                        None => {},
                    }
                    proof { lemma_redoes_refl(*self); }
                },
                ExecutionStep::Return(items, order, limit) => {
                    let (its, res) = self.run_project(items, order, &rs);
                    let text = self.results_json(&res, &its, *limit);
                    if !text.as_str().is_empty() {
                        output = text;
                    }
                    rs = res;
                    proof { lemma_redoes_refl(*self); }
                },
                ExecutionStep::CreateIndex { label, property, index_type } => {
                    let lid = self.label_logged(label.as_str());
                    let ghost g2 = *self;
                    self.create_index(lid, crate::text::copy_string(property), *index_type);
                    proof {
                        let en = crate::graph::types::WalEntryV::CreateIndex {
                            label: lid, property: property@, index_type: *index_type };
                        crate::graph::lemma_logged_redoes(g2, *self, en);
                        crate::graph::lemma_logged_since_refl(g2);
                        lemma_redoes_refl(g2);
                        crate::graph::lemma_logged_since_push(g2, g2, *self, en);
                        crate::graph::lemma_logged_since_concat(g1, g2, *self);
                        lemma_redoes_trans(g1, g2, *self);
                        assert(logged_since(g2, *self) =~= Seq::<crate::graph::types::WalEntryV>::empty().push(en));
                        assert(lid == crate::graph::execute::label_after(g1@.labels, label@));
                        assert(logged_since(g1, *self) =~= crate::graph::execute::label_entries(g1@.labels, label@).push(en));
                    }
                },
            }
            let ghost st2 = RunV {
                rows: rs@.rows,
                cols: rs@.columns,
                out: output@,
                prof: gprof,
                done: ended,
            };
            proof {
                lemma_redoes_trans(g0, g1, *self);
                if qv.profile {
                    assert(p_before is Some);
                }
                assert(step_ok(g1, *self, steps[k as int], st, st2));
                gs = gs.push(*self);
                sts = sts.push(st2);
                assert forall|j: int| 0 <= j < k + 1 implies #[trigger] step_ok(gs[j], gs[j + 1], steps[j], sts[j], sts[j + 1]) by {
                    if j < k {
                        assert(gs[j] == gs.drop_last()[j]);
                    }
                }
            }
            if ended {
                proof {
                    let rest = (n - k - 1) as nat;
                    let gfill = Seq::new(rest, |i: int| *self);
                    let sfill = Seq::new(rest, |i: int| st2);
                    let gs2 = gs + gfill;
                    let sts2 = sts + sfill;
                    assert forall|j: int| 0 <= j < n implies #[trigger] step_ok(gs2[j], gs2[j + 1], steps[j], sts2[j], sts2[j + 1]) by {
                        if j <= k {
                            assert(gs2[j] == gs[j] && gs2[j + 1] == gs[j + 1] && sts2[j] == sts[j] && sts2[j + 1] == sts[j + 1]);
                        } else {
                            assert(gs2[j] == *self && gs2[j + 1] == *self && sts2[j] == st2 && sts2[j + 1] == st2);
                        }
                    }
                    gs = gs2;
                    sts = sts2;
                }
                k = n;
            } else {
                k = k + 1;
            }
        }
        let t = answer(&output, &profile);
        proof {
            assert(run_ok(steps, gs, sts));
        }
        Ok(t)
    }
}

} // verus!
