use vstd::prelude::*;
use crate::graph::{Graph, ids_contain};
use crate::graph::model::{index_ok, GraphV};
use crate::graph::result_set::{ResultSet, ResultV, Row};
use crate::graph::matching::{
    all_ids, appended, at_limit, at_limit_exec, compatible, compatible_except, compatible_with, cross_pairs, index_list,
    agrees_with_some, pair_step, join_match, join_merge, join_pairs, label_id_of, label_matches, pair_rows, plan_rows, push_limited, lemma_appended_at_limit, lemma_appended_none,
    lemma_appended_trans, lemma_cross_pairs_split, lemma_filter_map_split, lemma_filter_map_step, lemma_filter_step,
    lemma_prefix_push, lemma_rows_dom_single, matching_node, merged_with, node_matches_spec, probe_pairs, rows_agree,
    rows_keys_equal, RowV,
};
use crate::parser::{names_view, opt_str_view, paths_view, NodePattern, Path, PathV};
use crate::planner::{anon_string, nth_node, nth_rel};
use crate::graph::element::{elems_view, lemma_elems_view, ElemV, GraphElement};
use crate::graph::matching::{limited, rows_dom};
use crate::planner::{PlanNode, plan_wf};
use crate::property::{number_text, push_number_text, PropV, PropertyValue};
use crate::text::{append, copy_string, debug_quoted, nat_text, own, push_char, push_debug_quoted, push_usize};

verus! {

// ---------------------------------------------------------------------------------------------
// The profile of a plan.

/// Two spaces for each level of depth.
pub open spec fn indent(depth: nat) -> Seq<char> {
    Seq::new(2 * depth, |i: int| ' ')
}

/// A property value as the profile writes it (the way a debug listing writes it).
pub open spec fn prop_debug(v: PropV) -> Seq<char> {
    match v {
        PropV::Boolean(b) => if b { "Boolean(true)"@ } else { "Boolean(false)"@ },
        PropV::Number(n) => "Number("@ + number_text(n) + ")"@,
        PropV::Text(s) => "String("@ + debug_quoted(s) + ")"@,
    }
}

/// The name of a plan step in the profile.
pub open spec fn op_text(p: PlanNode) -> Seq<char> {
    match p {
        PlanNode::FullNodeScan { .. } => "FullNodeScan"@,
        PlanNode::NodeLabelLookup { label, .. } => "NodeLabelLookup("@ + label@ + ")"@,
        PlanNode::NodeIndexLookup { label, property, value, .. } =>
            "NodeIndexLookup("@ + label@ + "."@ + property@ + "='"@ + prop_debug(value@) + "')"@,
        PlanNode::PathExpand { .. } => "PathExpand"@,
        PlanNode::Intersect { .. } => "Intersect"@,
        PlanNode::Union { .. } => "Union"@,
        PlanNode::HashJoin { .. } => "HashJoin"@,
        PlanNode::CrossProduct { .. } => "CrossProduct"@,
    }
}

/// The profile line of a plan step at `depth` that appended `n` rows.
pub open spec fn profile_line(p: PlanNode, depth: nat, n: nat) -> Seq<char> {
    indent(depth) + op_text(p) + " ("@ + nat_text(n) + " rows)\n"@
}

/// The profile is kept (or stays off) and only grows.
pub open spec fn profile_grows(before: Option<String>, after: Option<String>) -> bool {
    match before {
        None => after is None,
        Some(b) => after matches Some(a) && a@.len() >= b@.len() && a@.subrange(0, b@.len() as int) == b@,
    }
}

/// Growing twice is growing.
pub proof fn lemma_profile_grows_trans(a: Option<String>, b: Option<String>, c: Option<String>)
    requires
        profile_grows(a, b),
        profile_grows(b, c),
    ensures
        profile_grows(a, c),
{
    match a {
        None => {},
        Some(x) => {
            let y = b.unwrap();
            let z = c.unwrap();
            assert(z@.subrange(0, x@.len() as int) =~= z@.subrange(0, y@.len() as int).subrange(0, x@.len() as int));
        },
    }
}

/// A profile grows into itself.
pub proof fn lemma_profile_grows_refl(a: Option<String>)
    ensures
        profile_grows(a, a),
{
    match a {
        None => {},
        Some(x) => { assert(x@.subrange(0, x@.len() as int) =~= x@); },
    }
}

/// Appends a property value as the profile writes it.
pub(crate) fn push_prop_debug(s: &mut String, v: &PropertyValue)
    requires
        v.wf(),
    ensures
        final(s)@ == old(s)@ + prop_debug(v@),
{
    match v {
        PropertyValue::Boolean(b) => {
            if *b {
                append(s, "Boolean(true)");
            } else {
                append(s, "Boolean(false)");
            }
        },
        PropertyValue::Number(n) => {
            append(s, "Number(");
            push_number_text(s, n);
            append(s, ")");
            assert(s@ =~= old(s)@ + prop_debug(v@));
        },
        PropertyValue::String(t) => {
            append(s, "String(");
            push_debug_quoted(s, t.as_str());
            append(s, ")");
            assert(s@ =~= old(s)@ + prop_debug(v@));
        },
    }
}

/// Appends the profile line of a plan step (see `profile_line`).
fn push_profile_line(s: &mut String, plan: &PlanNode, depth: usize, n: usize)
    requires
        plan_wf(*plan),
    ensures
        final(s)@ == old(s)@ + profile_line(*plan, depth as nat, n as nat),
{
    let mut i: usize = 0;
    while i < depth
        invariant
            i <= depth,
            s@ == old(s)@ + indent(i as nat),
        decreases depth - i,
    {
        push_char(s, ' ');
        push_char(s, ' ');
        assert(indent(i as nat) + seq![' ', ' '] =~= indent(i as nat + 1));
        i = i + 1;
    }
    let ghost s1 = s@;
    match plan {
        PlanNode::FullNodeScan { .. } => append(s, "FullNodeScan"),
        PlanNode::NodeLabelLookup { label, .. } => {
            append(s, "NodeLabelLookup(");
            append(s, label.as_str());
            append(s, ")");
        },
        PlanNode::NodeIndexLookup { label, property, value, .. } => {
            append(s, "NodeIndexLookup(");
            append(s, label.as_str());
            append(s, ".");
            append(s, property.as_str());
            append(s, "='");
            push_prop_debug(s, value);
            append(s, "')");
        },
        PlanNode::PathExpand { .. } => append(s, "PathExpand"),
        PlanNode::Intersect { .. } => append(s, "Intersect"),
        PlanNode::Union { .. } => append(s, "Union"),
        PlanNode::HashJoin { .. } => append(s, "HashJoin"),
        PlanNode::CrossProduct { .. } => append(s, "CrossProduct"),
    }
    assert(s@ =~= s1 + op_text(*plan));
    append(s, " (");
    push_usize(s, n);
    append(s, " rows)\n");
    assert(s@ =~= old(s)@ + profile_line(*plan, depth as nat, n as nat));
}

// ---------------------------------------------------------------------------------------------
// Nodes a lookup step yields.

impl Graph {
    /// The nodes with the label that match the pattern, in id order (see `label_matches`).
    fn label_nodes(&self, label: &String, pattern: &NodePattern) -> (r: Vec<usize>)
        requires
            self.wf(),
            pattern.properties.wf(),
        ensures
            r@ == label_matches(self@, label@, pattern@),
    {
        match self.label_id(label.as_str()) {
            None => Vec::new(),
            Some(lid) => {
                let ghost g = self@;
                let ghost pred = |id: usize| g.nodes[id as int].labels.contains(lid) && node_matches_spec(g, id as int, pattern@);
                let n = self.nodes.len();
                let mut out: Vec<usize> = Vec::new();
                let mut id: usize = 0;
                while id < n
                    invariant
                        self.wf(),
                        g == self@,
                        pattern.properties.wf(),
                        pred == (|id: usize| g.nodes[id as int].labels.contains(lid) && node_matches_spec(g, id as int, pattern@)),
                        n == g.nodes.len(),
                        id <= n,
                        out@ == all_ids(n as nat).subrange(0, id as int).filter(pred),
                    decreases n - id,
                {
                    proof {
                        lemma_filter_step(all_ids(n as nat), id as int, pred);
                        assert(all_ids(n as nat)[id as int] == id);
                    }
                    if ids_contain(&self.nodes[id].labels, lid) && self.node_matches(id, pattern, self.reading_txid()) {
                        out.push(id);
                    }
                    id = id + 1;
                }
                assert(all_ids(n as nat).subrange(0, n as int) =~= all_ids(n as nat));
                out
            },
        }
    }

    /// The nodes the index lists for the label, property and value that match the pattern, in
    /// the index's order.
    fn index_nodes(&self, label: &String, property: &String, value: &PropertyValue, pattern: &NodePattern) -> (r: Vec<usize>)
        requires
            self.wf(),
            pattern.properties.wf(),
        ensures
            r@ == index_list(self@, label@, property@, value@).filter(matching_node(self@, pattern@)),
    {
        let ghost pred = matching_node(self@, pattern@);
        let list = match self.label_id(label.as_str()) {
            None => Vec::new(),
            Some(lid) => match self.find_index(lid, property.as_str()) {
                None => Vec::new(),
                Some(p) => {
                    proof { assert(index_ok(self@, self@.indices[p as int])); }
                    self.indices[p].map.lookup(value)
                },
            },
        };
        assert(list@ == index_list(self@, label@, property@, value@));
        let mut out: Vec<usize> = Vec::new();
        let mut i: usize = 0;
        while i < list.len()
            invariant
                self.wf(),
                pattern.properties.wf(),
                pred == matching_node(self@, pattern@),
                i <= list@.len(),
                out@ == list@.subrange(0, i as int).filter(pred),
            decreases list@.len() - i,
        {
            proof { lemma_filter_step(list@, i as int, pred); }
            if self.node_matches(list[i], pattern, self.reading_txid()) {
                out.push(list[i]);
            }
            i = i + 1;
        }
        assert(list@.subrange(0, i as int) =~= list@);
        out
    }
}

// ---------------------------------------------------------------------------------------------
// Merging rows.

/// Appends row `li` of `left` merged with row `ri` of `right`, under the limit.
fn push_merged_limited(out: &mut ResultSet, left: &ResultSet, li: usize, right: &ResultSet, ri: usize, limit: Option<usize>) -> (stopped: bool)
    requires
        old(out).wf(),
        left.wf(),
        right.wf(),
        li < left@.rows.len(),
        ri < right@.rows.len(),
        !at_limit(old(out)@, limit),
    ensures
        final(out).wf(),
        appended(old(out)@, final(out)@, seq![left@.rows[li as int].union_prefer_right(right@.rows[ri as int])], limit),
        stopped == at_limit(final(out)@, limit),
{
    let ghost start = out@;
    out.push_merged_row(left, li, right, ri);
    proof {
        let m = left@.rows[li as int].union_prefer_right(right@.rows[ri as int]);
        assert(start.rows + seq![m] =~= out@.rows);
        assert(out@.rows.subrange(start.rows.len() as int, out@.rows.len() as int) =~= seq![m]);
        lemma_rows_dom_single(m);
        assert(m.dom() =~= left@.rows[li as int].dom().union(right@.rows[ri as int].dom()));
        assert(out@.columns.to_set() =~= start.columns.to_set().union(m.dom()));
    }
    at_limit_exec(out, limit)
}

/// Appends row `li` of `left` merged with each row of `right` it agrees with, under the limit.
fn cross_one(out: &mut ResultSet, left: &ResultSet, li: usize, right: &ResultSet, limit: Option<usize>) -> (stopped: bool)
    requires
        old(out).wf(),
        left.wf(),
        right.wf(),
        li < left@.rows.len(),
        !at_limit(old(out)@, limit),
    ensures
        final(out).wf(),
        appended(old(out)@, final(out)@,
            right@.rows.filter(compatible_with(left@.rows[li as int])).map_values(merged_with(left@.rows[li as int])), limit),
        stopped ==> at_limit(final(out)@, limit),
        !stopped ==> !at_limit(final(out)@, limit),
{
    let ghost start = out@;
    let ghost l = left@.rows[li as int];
    let ghost rs = right@.rows;
    let ghost p = compatible_with(l);
    let ghost f = merged_with(l);
    let skip: Vec<String> = Vec::new();
    proof {
        lemma_appended_none(start, limit);
        assert(rs.subrange(0, 0).filter(p).map_values(f) =~= Seq::<RowV>::empty());
    }
    let n = right.rows();
    let mut j: usize = 0;
    while j < n
        invariant
            left.wf(),
            right.wf(),
            out.wf(),
            li < left@.rows.len(),
            l == left@.rows[li as int],
            rs == right@.rows,
            p == compatible_with(l),
            f == merged_with(l),
            skip@.len() == 0,
            n == rs.len(),
            j <= n,
            start == old(out)@,
            !at_limit(out@, limit),
            appended(start, out@, rs.subrange(0, j as int).filter(p).map_values(f), limit),
        decreases n - j,
    {
        let ghost mid = out@;
        proof { lemma_filter_map_step(rs, p, f, j as int); }
        let ok = rows_agree(left.row(li), right.row(j), &skip);
        proof {
            assert(names_view(skip@) =~= Seq::<Seq<char>>::empty());
            assert(ok == compatible(l, rs[j as int]));
        }
        if ok {
            let stop = push_merged_limited(out, left, li, right, j, limit);
            proof {
                lemma_appended_trans(start, mid, out@, rs.subrange(0, j as int).filter(p).map_values(f), seq![f(rs[j as int])], limit);
            }
            if stop {
                proof {
                    lemma_filter_map_split(rs, p, f, j as int + 1);
                    lemma_appended_at_limit(start, out@, rs.subrange(0, j as int + 1).filter(p).map_values(f),
                        rs.subrange(j as int + 1, n as int).filter(p).map_values(f), limit);
                }
                return true;
            }
        } else {
            assert(rs.subrange(0, j as int).filter(p).map_values(f) + Seq::<RowV>::empty()
                =~= rs.subrange(0, j as int).filter(p).map_values(f));
        }
        j = j + 1;
    }
    assert(rs.subrange(0, n as int) =~= rs);
    false
}

/// Appends each row of `left` merged with each row of `right` it agrees with, under the limit
/// (see `cross_pairs`).
fn cross_into(out: &mut ResultSet, left: &ResultSet, right: &ResultSet, limit: Option<usize>) -> (stopped: bool)
    requires
        old(out).wf(),
        left.wf(),
        right.wf(),
        !at_limit(old(out)@, limit),
    ensures
        final(out).wf(),
        appended(old(out)@, final(out)@, cross_pairs(left@.rows, right@.rows), limit),
        stopped ==> at_limit(final(out)@, limit),
        !stopped ==> !at_limit(final(out)@, limit),
{
    let ghost start = out@;
    let ghost ls = left@.rows;
    let ghost rs = right@.rows;
    proof {
        lemma_appended_none(start, limit);
        assert(ls.subrange(0, 0) =~= Seq::<RowV>::empty());
    }
    let n = left.rows();
    let mut i: usize = 0;
    while i < n
        invariant
            left.wf(),
            right.wf(),
            out.wf(),
            ls == left@.rows,
            rs == right@.rows,
            n == ls.len(),
            i <= n,
            start == old(out)@,
            !at_limit(out@, limit),
            appended(start, out@, cross_pairs(ls.subrange(0, i as int), rs), limit),
        decreases n - i,
    {
        let ghost mid = out@;
        let stop = cross_one(out, left, i, right, limit);
        proof {
            let here = rs.filter(compatible_with(ls[i as int])).map_values(merged_with(ls[i as int]));
            lemma_prefix_push(ls, i as int);
            assert(cross_pairs(ls.subrange(0, i as int + 1), rs) == cross_pairs(ls.subrange(0, i as int), rs) + here);
            lemma_appended_trans(start, mid, out@, cross_pairs(ls.subrange(0, i as int), rs), here, limit);
        }
        if stop {
            proof {
                lemma_cross_pairs_split(ls, rs, i as int + 1);
                lemma_appended_at_limit(start, out@, cross_pairs(ls.subrange(0, i as int + 1), rs),
                    cross_pairs(ls.subrange(i as int + 1, n as int), rs), limit);
            }
            return true;
        }
        i = i + 1;
    }
    assert(ls.subrange(0, n as int) =~= ls);
    false
}

/// Rows from a list of probe rows split in two.
pub proof fn lemma_probe_pairs_split(builds: Seq<RowV>, probes: Seq<RowV>, keys: Seq<Seq<char>>, bl: bool, i: int)
    requires
        0 <= i <= probes.len(),
    ensures
        probe_pairs(builds, probes, keys, bl)
            == probe_pairs(builds, probes.subrange(0, i), keys, bl) + probe_pairs(builds, probes.subrange(i, probes.len() as int), keys, bl),
    decreases probes.len() - i,
{
    if i == probes.len() {
        assert(probes.subrange(0, i) =~= probes);
        assert(probes.subrange(i, probes.len() as int) =~= Seq::<RowV>::empty());
        assert(probe_pairs(builds, probes, keys, bl) + Seq::<RowV>::empty() =~= probe_pairs(builds, probes, keys, bl));
    } else {
        lemma_probe_pairs_split(builds, probes.drop_last(), keys, bl, i);
        assert(probes.drop_last().subrange(0, i) =~= probes.subrange(0, i));
        let tail = probes.subrange(i, probes.len() as int);
        assert(tail.drop_last() =~= probes.drop_last().subrange(i, probes.drop_last().len() as int));
        assert(tail.last() == probes.last());
        assert(probe_pairs(builds, probes, keys, bl) =~= probe_pairs(builds, probes.subrange(0, i), keys, bl) + probe_pairs(builds, tail, keys, bl));
    }
}

/// Appends, for probe row `pi`, each build row that joins with it, merged with it (see
/// `probe_pairs`).
fn probe_one(out: &mut ResultSet, build: &ResultSet, probe: &ResultSet, pi: usize, build_is_left: bool, keys: &Vec<String>,
    limit: Option<usize>) -> (stopped: bool)
    requires
        old(out).wf(),
        build.wf(),
        probe.wf(),
        pi < probe@.rows.len(),
        !at_limit(old(out)@, limit),
    ensures
        final(out).wf(),
        appended(old(out)@, final(out)@, build@.rows.filter(join_match(probe@.rows[pi as int], names_view(keys@), build_is_left))
            .map_values(join_merge(probe@.rows[pi as int], build_is_left)), limit),
        stopped ==> at_limit(final(out)@, limit),
        !stopped ==> !at_limit(final(out)@, limit),
{
    let ghost start = out@;
    let ghost pr = probe@.rows[pi as int];
    let ghost bs = build@.rows;
    let ghost ks = names_view(keys@);
    let ghost p = join_match(pr, ks, build_is_left);
    let ghost f = join_merge(pr, build_is_left);
    proof {
        lemma_appended_none(start, limit);
        assert(bs.subrange(0, 0).filter(p).map_values(f) =~= Seq::<RowV>::empty());
    }
    let n = build.rows();
    let mut j: usize = 0;
    while j < n
        invariant
            build.wf(),
            probe.wf(),
            out.wf(),
            pi < probe@.rows.len(),
            pr == probe@.rows[pi as int],
            bs == build@.rows,
            ks == names_view(keys@),
            p == join_match(pr, ks, build_is_left),
            f == join_merge(pr, build_is_left),
            n == bs.len(),
            j <= n,
            start == old(out)@,
            !at_limit(out@, limit),
            appended(start, out@, bs.subrange(0, j as int).filter(p).map_values(f), limit),
        decreases n - j,
    {
        let ghost mid = out@;
        proof { lemma_filter_map_step(bs, p, f, j as int); }
        let b = build.row(j);
        let q = probe.row(pi);
        let ok = rows_keys_equal(b, q, keys) && (if build_is_left { rows_agree(b, q, keys) } else { rows_agree(q, b, keys) });
        assert(ok == p(bs[j as int]));
        if ok {
            let stop = if build_is_left {
                push_merged_limited(out, build, j, probe, pi, limit)
            } else {
                push_merged_limited(out, probe, pi, build, j, limit)
            };
            proof {
                assert(f(bs[j as int]) == if build_is_left { bs[j as int].union_prefer_right(pr) } else { pr.union_prefer_right(bs[j as int]) });
                lemma_appended_trans(start, mid, out@, bs.subrange(0, j as int).filter(p).map_values(f), seq![f(bs[j as int])], limit);
            }
            if stop {
                proof {
                    lemma_filter_map_split(bs, p, f, j as int + 1);
                    lemma_appended_at_limit(start, out@, bs.subrange(0, j as int + 1).filter(p).map_values(f),
                        bs.subrange(j as int + 1, n as int).filter(p).map_values(f), limit);
                }
                return true;
            }
        } else {
            assert(bs.subrange(0, j as int).filter(p).map_values(f) + Seq::<RowV>::empty()
                =~= bs.subrange(0, j as int).filter(p).map_values(f));
        }
        j = j + 1;
    }
    assert(bs.subrange(0, n as int) =~= bs);
    false
}

/// Appends, for each probe row in turn, the build rows that join with it (see `probe_pairs`).
fn probe_all(out: &mut ResultSet, build: &ResultSet, probe: &ResultSet, build_is_left: bool, keys: &Vec<String>,
    limit: Option<usize>) -> (stopped: bool)
    requires
        old(out).wf(),
        build.wf(),
        probe.wf(),
        !at_limit(old(out)@, limit),
    ensures
        final(out).wf(),
        appended(old(out)@, final(out)@, probe_pairs(build@.rows, probe@.rows, names_view(keys@), build_is_left), limit),
        stopped ==> at_limit(final(out)@, limit),
        !stopped ==> !at_limit(final(out)@, limit),
{
    let ghost start = out@;
    let ghost bs = build@.rows;
    let ghost ps = probe@.rows;
    let ghost ks = names_view(keys@);
    proof {
        lemma_appended_none(start, limit);
        assert(ps.subrange(0, 0) =~= Seq::<RowV>::empty());
    }
    let n = probe.rows();
    let mut i: usize = 0;
    while i < n
        invariant
            build.wf(),
            probe.wf(),
            out.wf(),
            bs == build@.rows,
            ps == probe@.rows,
            ks == names_view(keys@),
            n == ps.len(),
            i <= n,
            start == old(out)@,
            !at_limit(out@, limit),
            appended(start, out@, probe_pairs(bs, ps.subrange(0, i as int), ks, build_is_left), limit),
        decreases n - i,
    {
        let ghost mid = out@;
        let stop = probe_one(out, build, probe, i, build_is_left, keys, limit);
        proof {
            let here = bs.filter(join_match(ps[i as int], ks, build_is_left)).map_values(join_merge(ps[i as int], build_is_left));
            lemma_prefix_push(ps, i as int);
            assert(probe_pairs(bs, ps.subrange(0, i as int + 1), ks, build_is_left)
                == probe_pairs(bs, ps.subrange(0, i as int), ks, build_is_left) + here);
            lemma_appended_trans(start, mid, out@, probe_pairs(bs, ps.subrange(0, i as int), ks, build_is_left), here, limit);
        }
        if stop {
            proof {
                lemma_probe_pairs_split(bs, ps, ks, build_is_left, i as int + 1);
                lemma_appended_at_limit(start, out@, probe_pairs(bs, ps.subrange(0, i as int + 1), ks, build_is_left),
                    probe_pairs(bs, ps.subrange(i as int + 1, n as int), ks, build_is_left), limit);
            }
            return true;
        }
        i = i + 1;
    }
    assert(ps.subrange(0, n as int) =~= ps);
    false
}

/// A hash join of the rows of `left` and `right` on the keys: built on the smaller (the left
/// one when equal), probed with the other (see `join_pairs`).
fn join_into(out: &mut ResultSet, left: &ResultSet, right: &ResultSet, keys: &Vec<String>, limit: Option<usize>) -> (stopped: bool)
    requires
        old(out).wf(),
        left.wf(),
        right.wf(),
        !at_limit(old(out)@, limit),
    ensures
        final(out).wf(),
        appended(old(out)@, final(out)@, join_pairs(left@.rows, right@.rows, names_view(keys@)), limit),
        stopped ==> at_limit(final(out)@, limit),
        !stopped ==> !at_limit(final(out)@, limit),
{
    if left.rows() <= right.rows() {
        probe_all(out, left, right, true, keys, limit)
    } else {
        probe_all(out, right, left, false, keys, limit)
    }
}

/// Appends each row of `left` that agrees with some row of `right`.
fn intersect_into(out: &mut ResultSet, left: &ResultSet, right: &ResultSet, limit: Option<usize>) -> (stopped: bool)
    requires
        old(out).wf(),
        left.wf(),
        right.wf(),
        !at_limit(old(out)@, limit),
    ensures
        final(out).wf(),
        appended(old(out)@, final(out)@, left@.rows.filter(agrees_with_some(right@.rows)), limit),
        stopped ==> at_limit(final(out)@, limit),
        !stopped ==> !at_limit(final(out)@, limit),
{
    let ghost start = out@;
    let ghost ls = left@.rows;
    let ghost rs = right@.rows;
    let ghost p = agrees_with_some(rs);
    let skip: Vec<String> = Vec::new();
    proof {
        lemma_appended_none(start, limit);
        assert(ls.subrange(0, 0).filter(p) =~= Seq::<RowV>::empty());
        assert(names_view(skip@) =~= Seq::<Seq<char>>::empty());
    }
    let n = left.rows();
    let m = right.rows();
    let mut i: usize = 0;
    while i < n
        invariant
            left.wf(),
            right.wf(),
            out.wf(),
            ls == left@.rows,
            rs == right@.rows,
            p == agrees_with_some(rs),
            names_view(skip@) == Seq::<Seq<char>>::empty(),
            n == ls.len(),
            m == rs.len(),
            i <= n,
            start == old(out)@,
            !at_limit(out@, limit),
            appended(start, out@, ls.subrange(0, i as int).filter(p), limit),
        decreases n - i,
    {
        let mut found = false;
        let mut j: usize = 0;
        while j < m
            invariant
                left.wf(),
                right.wf(),
                ls == left@.rows,
                rs == right@.rows,
                names_view(skip@) == Seq::<Seq<char>>::empty(),
                m == rs.len(),
                i < n,
                n == ls.len(),
                j <= m,
                found == exists|q: int| 0 <= q < j && compatible(ls[i as int], #[trigger] rs[q]),
            decreases m - j,
        {
            if rows_agree(left.row(i), right.row(j), &skip) {
                assert(compatible(ls[i as int], rs[j as int]));
                found = true;
            }
            j = j + 1;
        }
        let ghost mid = out@;
        proof {
            lemma_filter_step_rows(ls, i as int, p);
            assert(found == p(ls[i as int]));
        }
        if found {
            let stop = push_limited(out, left.row(i), limit);
            proof {
                assert(ls.subrange(0, i as int).filter(p).push(ls[i as int]) =~= ls.subrange(0, i as int).filter(p) + seq![ls[i as int]]);
                lemma_appended_trans(start, mid, out@, ls.subrange(0, i as int).filter(p), seq![ls[i as int]], limit);
            }
            if stop {
                proof {
                    assert(ls =~= ls.subrange(0, i as int + 1) + ls.subrange(i as int + 1, n as int));
                    Seq::filter_distributes_over_add(ls.subrange(0, i as int + 1), ls.subrange(i as int + 1, n as int), p);
                    lemma_appended_at_limit(start, out@, ls.subrange(0, i as int + 1).filter(p),
                        ls.subrange(i as int + 1, n as int).filter(p), limit);
                }
                return true;
            }
        }
        i = i + 1;
    }
    assert(ls.subrange(0, n as int) =~= ls);
    false
}

/// Filtering a list of rows, one element more.
proof fn lemma_filter_step_rows(s: Seq<RowV>, i: int, pred: spec_fn(RowV) -> bool)
    requires
        0 <= i < s.len(),
    ensures
        s.subrange(0, i + 1).filter(pred) == if pred(s[i]) { s.subrange(0, i).filter(pred).push(s[i]) } else { s.subrange(0, i).filter(pred) },
{
    assert(s.subrange(0, i + 1) =~= s.subrange(0, i).push(s[i]));
    s.subrange(0, i).lemma_filter_push(s[i], pred);
}

/// Rows of a join or cross product from a list of input rows split in two.
pub proof fn lemma_pair_rows_split(g: GraphV, plan: PlanNode, rows: Seq<RowV>, i: int)
    requires
        0 <= i <= rows.len(),
    ensures
        pair_rows(g, plan, rows) == pair_rows(g, plan, rows.subrange(0, i)) + pair_rows(g, plan, rows.subrange(i, rows.len() as int)),
    decreases rows.len() - i,
{
    if i == rows.len() {
        assert(rows.subrange(0, i) =~= rows);
        assert(rows.subrange(i, rows.len() as int) =~= Seq::<RowV>::empty());
        assert(pair_rows(g, plan, rows) + Seq::<RowV>::empty() =~= pair_rows(g, plan, rows));
    } else {
        lemma_pair_rows_split(g, plan, rows.drop_last(), i);
        assert(rows.drop_last().subrange(0, i) =~= rows.subrange(0, i));
        let tail = rows.subrange(i, rows.len() as int);
        assert(tail.drop_last() =~= rows.drop_last().subrange(i, rows.drop_last().len() as int));
        assert(tail.last() == rows.last());
        assert(pair_rows(g, plan, rows) =~= pair_rows(g, plan, rows.subrange(0, i)) + pair_rows(g, plan, tail));
    }
}

/// The depth of a step's children.
pub open spec fn next_depth(d: nat) -> nat {
    if d < usize::MAX { d + 1 } else { d }
}

/// How many rows a step appends to `start` rows when it gives `total` rows, under `limit`.
pub open spec fn added(start: nat, total: nat, limit: Option<usize>) -> nat {
    match limit {
        None => total,
        Some(l) => if start >= l { 0 } else if start + total <= l { total } else { (l - start) as nat },
    }
}

/// `count` rows reach the limit.
pub open spec fn full(count: nat, limit: Option<usize>) -> bool {
    limit matches Some(l) && count >= l
}

/// What a step adds to the profile when it runs on `rows` with `start` rows already given
/// under `limit`: its children's profiles, then its own line unless it stopped at the limit. A
/// step that finds the limit reached adds nothing; a union whose left side reaches it stops
/// there; a join or cross product profiles both sides for each input row until the limit.
pub open spec fn plan_profile(g: GraphV, plan: PlanNode, rows: Seq<RowV>, depth: nat, start: nat, limit: Option<usize>) -> Seq<char>
    decreases plan, 1int, 0nat,
{
    if full(start, limit) {
        Seq::empty()
    } else {
        let nd = next_depth(depth);
        let c = added(start, plan_rows(g, plan, rows).len(), limit);
        let line = profile_line(plan, depth, c);
        match plan {
            PlanNode::PathExpand { source, .. } => {
                let ch = plan_profile(g, *source, rows, nd, 0, None);
                if full(start + c, limit) { ch } else { ch + line }
            },
            PlanNode::Intersect { left, right } => {
                let ch = plan_profile(g, *left, rows, nd, 0, None) + plan_profile(g, *right, rows, nd, 0, None);
                if full(start + c, limit) { ch } else { ch + line }
            },
            PlanNode::Union { left, right } => {
                let c1 = added(start, plan_rows(g, *left, rows).len(), limit);
                let lp = plan_profile(g, *left, rows, nd, start, limit);
                if full(start + c1, limit) { lp } else { lp + plan_profile(g, *right, rows, nd, start + c1, limit) + line }
            },
            PlanNode::HashJoin { .. } => {
                let ch = pairs_profile(g, plan, rows, nd, start, limit, rows.len());
                if full(start + c, limit) { ch } else { ch + line }
            },
            PlanNode::CrossProduct { .. } => {
                let ch = pairs_profile(g, plan, rows, nd, start, limit, rows.len());
                if full(start + c, limit) { ch } else { ch + line }
            },
            _ => if full(start + c, limit) { Seq::empty() } else { line },
        }
    }
}

/// The profiles of both sides of a join or cross product for the first `k` input rows, up to
/// the row after which the limit was reached.
pub open spec fn pairs_profile(g: GraphV, plan: PlanNode, rows: Seq<RowV>, nd: nat, start: nat, limit: Option<usize>, k: nat)
    -> Seq<char>
    decreases plan, 0int, k,
{
    if k == 0 || k > rows.len() {
        Seq::empty()
    } else {
        let prev = pairs_profile(g, plan, rows, nd, start, limit, (k - 1) as nat);
        if full(start + added(start, pair_rows(g, plan, rows.subrange(0, k - 1)).len(), limit), limit) {
            prev
        } else {
            match plan {
                PlanNode::HashJoin { left, right, .. } =>
                    prev + plan_profile(g, *left, seq![rows[k - 1]], nd, 0, None) + plan_profile(g, *right, seq![rows[k - 1]], nd, 0, None),
                PlanNode::CrossProduct { left, right } =>
                    prev + plan_profile(g, *left, seq![rows[k - 1]], nd, 0, None) + plan_profile(g, *right, seq![rows[k - 1]], nd, 0, None),
                _ => prev,
            }
        }
    }
}

/// The profile `after` is `before` with `text` added (when it is kept).
pub open spec fn profile_adds(before: Option<String>, after: Option<String>, text: Seq<char>) -> bool {
    match before {
        None => after is None,
        Some(b) => after matches Some(a) && a@ == b@ + text,
    }
}

/// A limited append adds `added` rows.
pub proof fn lemma_limited_len<T>(a: Seq<T>, b: Seq<T>, limit: Option<usize>)
    ensures
        limited(a, b, limit).len() == a.len() + added(a.len(), b.len(), limit),
{
}

/// Adding twice is adding both texts.
pub proof fn lemma_profile_adds_trans(a: Option<String>, b: Option<String>, c: Option<String>, x: Seq<char>, y: Seq<char>)
    requires
        profile_adds(a, b, x),
        profile_adds(b, c, y),
    ensures
        profile_adds(a, c, x + y),
{
    match a {
        Some(sa) => {
            assert(c.unwrap()@ =~= sa@ + (x + y));
        },
        None => {},
    }
}

/// Adding text grows the profile.
pub proof fn lemma_profile_adds_grows(a: Option<String>, b: Option<String>, x: Seq<char>)
    requires
        profile_adds(a, b, x),
    ensures
        profile_grows(a, b),
{
    match a {
        Some(sa) => { assert(b.unwrap()@.subrange(0, sa@.len() as int) =~= sa@); },
        None => {},
    }
}

/// Adding nothing.
pub proof fn lemma_profile_adds_none(a: Option<String>)
    ensures
        profile_adds(a, a, Seq::empty()),
{
    match a {
        Some(sa) => { assert(sa@ =~= sa@ + Seq::<char>::empty()); },
        None => {},
    }
}

/// Once the limit is reached, later input rows add nothing to the profile.
proof fn lemma_pairs_profile_stays(g: GraphV, plan: PlanNode, rows: Seq<RowV>, nd: nat, start: nat, limit: Option<usize>, k: nat, k2: nat)
    requires
        1 <= k <= k2 <= rows.len(),
        full(start + added(start, pair_rows(g, plan, rows.subrange(0, k as int)).len(), limit), limit),
    ensures
        pairs_profile(g, plan, rows, nd, start, limit, k2) == pairs_profile(g, plan, rows, nd, start, limit, k),
    decreases k2,
{
    if k2 > k {
        lemma_pairs_profile_stays(g, plan, rows, nd, start, limit, k, (k2 - 1) as nat);
        lemma_pair_rows_split(g, plan, rows.subrange(0, k2 - 1), k as int);
        assert(rows.subrange(0, k2 - 1).subrange(0, k as int) =~= rows.subrange(0, k as int));
    }
}

/// Appended to an empty result without a limit: the rows are exactly those appended.
proof fn lemma_appended_fresh(a: ResultV, b: ResultV, x: Seq<RowV>)
    requires
        a.rows.len() == 0,
        appended(a, b, x, None),
    ensures
        b.rows == x,
{
    assert(a.rows + x =~= x);
}

impl Graph {
    /// Runs a join or cross product: for each input row, both sides are run on that row alone
    /// and their rows paired (see `pair_rows`).
    fn pairs_into(&self, plan: &PlanNode, in_res: &ResultSet, out: &mut ResultSet, profile: &mut Option<String>,
        depth: usize, limit: Option<usize>) -> (stopped: bool)
        requires
            self.wf(),
            plan_wf(*plan),
            plan is HashJoin || plan is CrossProduct,
            in_res.wf(),
            old(out).wf(),
            !at_limit(old(out)@, limit),
        ensures
            final(out).wf(),
            appended(old(out)@, final(out)@, pair_rows(self@, *plan, in_res@.rows), limit),
            stopped ==> at_limit(final(out)@, limit),
            !stopped ==> !at_limit(final(out)@, limit),
            profile_adds(*old(profile), *final(profile), pairs_profile(self@, *plan, in_res@.rows,
                next_depth(depth as nat), old(out)@.rows.len(), limit, in_res@.rows.len())),
        decreases plan, 0int,
    {
        let ghost g = self@;
        let ghost start = out@;
        let ghost rows = in_res@.rows;
        let (left, right) = match plan {
            PlanNode::HashJoin { left, right, .. } => (left, right),
            PlanNode::CrossProduct { left, right } => (left, right),
            _ => {
                proof { assert(false); }
                return false;
            },
        };
        proof {
            lemma_appended_none(start, limit);
            lemma_profile_adds_none(*profile);
            assert(rows.subrange(0, 0) =~= Seq::<RowV>::empty());
        }
        let ghost nd = next_depth(depth as nat);
        let n = in_res.rows();
        let mut i: usize = 0;
        while i < n
            invariant
                self.wf(),
                g == self@,
                plan_wf(*plan),
                plan is HashJoin || plan is CrossProduct,
                plan_wf(**left),
                plan_wf(**right),
                (match *plan {
                    PlanNode::HashJoin { left: l, right: r, .. } => l == *left && r == *right,
                    PlanNode::CrossProduct { left: l, right: r } => l == *left && r == *right,
                    _ => false,
                }),
                in_res.wf(),
                out.wf(),
                rows == in_res@.rows,
                n == rows.len(),
                i <= n,
                start == old(out)@,
                !at_limit(out@, limit),
                appended(start, out@, pair_rows(g, *plan, rows.subrange(0, i as int)), limit),
                nd == next_depth(depth as nat),
                profile_adds(*old(profile), *profile, pairs_profile(g, *plan, rows, nd, start.rows.len(), limit, i as nat)),
            decreases n - i,
        {
            let mut single = ResultSet::new();
            single.push_row(in_res.row(i));
            assert(single@.rows =~= seq![rows[i as int]]);
            let ghost p0 = *profile;
            let mut lres = ResultSet::new();
            let ghost l0 = lres@;
            self.run_plan(left, &single, &mut lres, profile, if depth < usize::MAX { depth + 1 } else { depth }, None);
            let ghost p1 = *profile;
            let mut rres = ResultSet::new();
            let ghost r0 = rres@;
            self.run_plan(right, &single, &mut rres, profile, if depth < usize::MAX { depth + 1 } else { depth }, None);
            proof {
                lemma_appended_fresh(l0, lres@, plan_rows(g, **left, seq![rows[i as int]]));
                lemma_appended_fresh(r0, rres@, plan_rows(g, **right, seq![rows[i as int]]));
                let lp = plan_profile(g, **left, seq![rows[i as int]], nd, 0, None);
                let rp = plan_profile(g, **right, seq![rows[i as int]], nd, 0, None);
                let prev = pairs_profile(g, *plan, rows, nd, start.rows.len(), limit, i as nat);
                lemma_profile_adds_trans(*old(profile), p0, p1, prev, lp);
                lemma_profile_adds_trans(*old(profile), p1, *profile, prev + lp, rp);
                lemma_limited_len(start.rows, pair_rows(g, *plan, rows.subrange(0, i as int)), limit);
                assert(!full(start.rows.len() + added(start.rows.len(), pair_rows(g, *plan, rows.subrange(0, i as int)).len(), limit), limit));
                assert(rows.subrange(0, i as int + 1 - 1) =~= rows.subrange(0, i as int));
                assert(pairs_profile(g, *plan, rows, nd, start.rows.len(), limit, i as nat + 1) == prev + lp + rp);
            }
            let ghost mid = out@;
            let stop = match plan {
                PlanNode::HashJoin { join_keys, .. } => join_into(out, &lres, &rres, join_keys, limit),
                _ => cross_into(out, &lres, &rres, limit),
            };
            proof {
                let here = pair_step(g, *plan, rows[i as int]);
                lemma_prefix_push(rows, i as int);
                assert(pair_rows(g, *plan, rows.subrange(0, i as int + 1)) == pair_rows(g, *plan, rows.subrange(0, i as int)) + here);
                lemma_appended_trans(start, mid, out@, pair_rows(g, *plan, rows.subrange(0, i as int)), here, limit);
            }
            if stop {
                proof {
                    lemma_limited_len(start.rows, pair_rows(g, *plan, rows.subrange(0, i as int + 1)), limit);
                    lemma_pairs_profile_stays(g, *plan, rows, nd, start.rows.len(), limit, i as nat + 1, n as nat);
                    lemma_pair_rows_split(g, *plan, rows, i as int + 1);
                    lemma_appended_at_limit(start, out@, pair_rows(g, *plan, rows.subrange(0, i as int + 1)),
                        pair_rows(g, *plan, rows.subrange(i as int + 1, n as int)), limit);
                }
                return true;
            }
            i = i + 1;
        }
        assert(rows.subrange(0, n as int) =~= rows);
        false
    }

    /// Runs a plan step for the input rows, appending its rows to `out` until it holds `limit`
    /// rows, and writes the step's profile line (children first) unless it stopped at the limit.
    fn run_plan(&self, plan: &PlanNode, in_res: &ResultSet, out: &mut ResultSet, profile: &mut Option<String>,
        depth: usize, limit: Option<usize>) -> (stopped: bool)
        requires
            self.wf(),
            plan_wf(*plan),
            in_res.wf(),
            old(out).wf(),
        ensures
            final(out).wf(),
            appended(old(out)@, final(out)@, plan_rows(self@, *plan, in_res@.rows), limit),
            stopped ==> at_limit(final(out)@, limit),
            profile_adds(*old(profile), *final(profile),
                plan_profile(self@, *plan, in_res@.rows, depth as nat, old(out)@.rows.len(), limit)),
        decreases plan, 1int,
    {
        let ghost g = self@;
        let ghost start = out@;
        let ghost rows = in_res@.rows;
        let ghost st = start.rows.len();
        proof {
            lemma_appended_none(start, limit);
            lemma_profile_adds_none(*profile);
        }
        if at_limit_exec(out, limit) {
            proof {
                lemma_appended_at_limit(start, start, Seq::empty(), plan_rows(g, *plan, rows), limit);
                assert(Seq::<RowV>::empty() + plan_rows(g, *plan, rows) =~= plan_rows(g, *plan, rows));
            }
            return true;
        }
        let n0 = out.rows();
        let next = if depth < usize::MAX { depth + 1 } else { depth };
        let ghost nd = next_depth(depth as nat);
        let ghost p_in = *profile;
        let ghost ch: Seq<char> = Seq::empty();
        let stopped = match plan {
            PlanNode::FullNodeScan { pattern } => self.scan_into(pattern, in_res, out, limit),
            PlanNode::NodeLabelLookup { label, pattern } => {
                let ids = self.label_nodes(label, pattern);
                self.push_nodes_for_rows(in_res, &pattern.variable, &ids, out, limit)
            },
            PlanNode::NodeIndexLookup { label, property, value, pattern } => {
                let ids = self.index_nodes(label, property, value, pattern);
                self.push_nodes_for_rows(in_res, &pattern.variable, &ids, out, limit)
            },
            PlanNode::PathExpand { source, source_node_pattern, rel_pattern, target_node_pattern } => {
                let mut src = ResultSet::new();
                let ghost s0 = src@;
                self.run_plan(source, in_res, &mut src, profile, next, None);
                proof {
                    lemma_appended_fresh(s0, src@, plan_rows(g, **source, rows));
                    ch = plan_profile(g, **source, rows, nd, 0, None);
                }
                self.expand_into(source_node_pattern, rel_pattern, target_node_pattern, &src, out, limit)
            },
            PlanNode::Intersect { left, right } => {
                let ghost p0 = *profile;
                let mut lres = ResultSet::new();
                let ghost l0 = lres@;
                self.run_plan(left, in_res, &mut lres, profile, next, None);
                let ghost p1 = *profile;
                let mut rres = ResultSet::new();
                let ghost r0 = rres@;
                self.run_plan(right, in_res, &mut rres, profile, next, None);
                proof {
                    lemma_appended_fresh(l0, lres@, plan_rows(g, **left, rows));
                    lemma_appended_fresh(r0, rres@, plan_rows(g, **right, rows));
                    lemma_profile_adds_trans(p0, p1, *profile, plan_profile(g, **left, rows, nd, 0, None),
                        plan_profile(g, **right, rows, nd, 0, None));
                    ch = plan_profile(g, **left, rows, nd, 0, None) + plan_profile(g, **right, rows, nd, 0, None);
                }
                intersect_into(out, &lres, &rres, limit)
            },
            PlanNode::Union { left, right } => {
                let ghost p0 = *profile;
                self.run_plan(left, in_res, out, profile, next, limit);
                let ghost mid = out@;
                let ghost p1 = *profile;
                proof {
                    lemma_limited_len(start.rows, plan_rows(g, **left, rows), limit);
                    ch = plan_profile(g, **left, rows, nd, st, limit);
                }
                if at_limit_exec(out, limit) {
                    proof {
                        lemma_appended_at_limit(start, out@, plan_rows(g, **left, rows), plan_rows(g, **right, rows), limit);
                    }
                    true
                } else {
                    self.run_plan(right, in_res, out, profile, next, limit);
                    proof {
                        lemma_appended_trans(start, mid, out@, plan_rows(g, **left, rows), plan_rows(g, **right, rows), limit);
                        let c1 = added(st, plan_rows(g, **left, rows).len(), limit);
                        lemma_profile_adds_trans(p0, p1, *profile, ch, plan_profile(g, **right, rows, nd, st + c1, limit));
                        ch = ch + plan_profile(g, **right, rows, nd, st + c1, limit);
                    }
                    false
                }
            },
            PlanNode::HashJoin { .. } => {
                proof { ch = pairs_profile(g, *plan, rows, nd, st, limit, rows.len()); }
                self.pairs_into(plan, in_res, out, profile, depth, limit)
            },
            PlanNode::CrossProduct { .. } => {
                proof { ch = pairs_profile(g, *plan, rows, nd, st, limit, rows.len()); }
                self.pairs_into(plan, in_res, out, profile, depth, limit)
            },
        };
        proof {
            lemma_limited_len(start.rows, plan_rows(g, *plan, rows), limit);
            assert(profile_adds(p_in, *profile, ch));
        }
        if !stopped {
            let ghost before = *profile;
            match profile {
                Some(p) => {
                    let count = out.rows() - n0;
                    push_profile_line(p, plan, depth, count);
                },
                None => {},
            }
            proof {
                let line = profile_line(*plan, depth as nat, (out@.rows.len() - st) as nat);
                match before {
                    Some(b) => {
                        assert(profile.unwrap()@ == b@ + line);
                    },
                    None => {},
                }
                lemma_profile_adds_trans(p_in, before, *profile, ch, line);
                assert(plan_profile(g, *plan, rows, depth as nat, st, limit) == ch + line);
            }
        } else {
            proof {
                assert(ch + Seq::<char>::empty() =~= ch);
                assert(plan_profile(g, *plan, rows, depth as nat, st, limit) == ch);
            }
        }
        stopped
    }

    /// Runs a plan step for the input rows (see `run_plan`), appending its rows to `out` until
    /// it holds `limit` rows; when `profile` is kept, each step that did not stop at the limit
    /// adds its line, children first (see `plan_profile`).
    pub fn execute_plan(&self, plan: &PlanNode, in_res: &ResultSet, out: &mut ResultSet, profile: &mut Option<String>,
        depth: usize, limit: Option<usize>)
        requires
            self.wf(),
            plan_wf(*plan),
            in_res.wf(),
            old(out).wf(),
        ensures
            final(out).wf(),
            appended(old(out)@, final(out)@, plan_rows(self@, *plan, in_res@.rows), limit),
            profile_adds(*old(profile), *final(profile),
                plan_profile(self@, *plan, in_res@.rows, depth as nat, old(out)@.rows.len(), limit)),
    {
        self.run_plan(plan, in_res, out, profile, depth, limit);
    }
}

// ---------------------------------------------------------------------------------------------
// Binding path variables.

/// The element a row binds `name` to, as a list of at most one.
pub open spec fn opt_elem(row: RowV, name: Seq<char>) -> Seq<ElemV> {
    if row.contains_key(name) { seq![row[name]] } else { Seq::empty() }
}

/// The elements of the first `k` steps of a path that the row binds: the start node, then
/// each relationship and the node it reaches (under their names, see `nth_node`, `nth_rel`).
pub open spec fn path_elems(row: RowV, path: PathV, k: nat) -> Seq<ElemV>
    decreases k,
{
    if k == 0 {
        opt_elem(row, nth_node(path, 0).variable.unwrap())
    } else {
        path_elems(row, path, (k - 1) as nat) + opt_elem(row, nth_rel(path, k - 1).variable.unwrap())
            + opt_elem(row, nth_node(path, k as int).variable.unwrap())
    }
}

/// The row with the path's variable (if it has one) bound to the path's elements.
pub open spec fn bind_path(row: RowV, path: PathV) -> RowV {
    match path.bound_variable {
        Some(bv) => row.insert(bv, ElemV::Path(path_elems(row, path, path.edges.len()))),
        None => row,
    }
}

/// The row with each path's variable bound in turn.
pub open spec fn bind_paths(row: RowV, paths: Seq<PathV>) -> RowV
    decreases paths.len(),
{
    if paths.len() == 0 {
        row
    } else {
        bind_path(bind_paths(row, paths.drop_last()), paths.last())
    }
}

/// The rows with the path variables bound.
pub open spec fn bound_rows(rows: Seq<RowV>, paths: Seq<PathV>) -> Seq<RowV> {
    rows.map_values(|r: RowV| bind_paths(r, paths))
}

/// The name an element of a pattern is bound under: its variable, else `default`.
fn var_or(v: &Option<String>, default: String) -> (r: String)
    ensures
        r@ == match opt_str_view(*v) { Some(s) => s, None => default@ },
{
    match v {
        Some(s) => copy_string(s),
        None => default,
    }
}

/// Appends to `es` the element row `i` binds `name` to, if any.
fn push_opt_elem(es: &mut Vec<GraphElement>, out: &ResultSet, i: usize, name: &String)
    requires
        out.wf(),
        i < out@.rows.len(),
    ensures
        elems_view(final(es)@) == elems_view(old(es)@) + opt_elem(out@.rows[i as int], name@),
{
    match out.get(i, name.as_str()) {
        Some(e) => {
            es.push(e.copy());
            proof {
                assert(es@.subrange(0, es@.len() - 1) =~= old(es)@);
                assert(elems_view(es@) =~= elems_view(old(es)@) + opt_elem(out@.rows[i as int], name@));
            }
        },
        None => {
            assert(elems_view(es@) =~= elems_view(old(es)@) + opt_elem(out@.rows[i as int], name@));
        },
    }
}

/// The path's elements that row `i` binds (see `path_elems`).
fn path_value(out: &ResultSet, i: usize, path: &Path) -> (r: GraphElement)
    requires
        out.wf(),
        i < out@.rows.len(),
    ensures
        r@ == ElemV::Path(path_elems(out@.rows[i as int], path@, path@.edges.len())),
{
    let ghost row = out@.rows[i as int];
    let mut es: Vec<GraphElement> = Vec::new();
    proof { reveal_strlit("_anon_start"); }
    let start = var_or(&path.start.variable, own("_anon_start"));
    assert(elems_view(es@) =~= Seq::<ElemV>::empty());
    push_opt_elem(&mut es, out, i, &start);
    assert(start@ == nth_node(path@, 0).variable.unwrap());
    assert(elems_view(es@) =~= path_elems(row, path@, 0));
    let n = path.edges.len();
    let mut k: usize = 0;
    while k < n
        invariant
            out.wf(),
            i < out@.rows.len(),
            row == out@.rows[i as int],
            n == path@.edges.len(),
            k <= n,
            elems_view(es@) == path_elems(row, path@, k as nat),
        decreases n - k,
    {
        let rel = var_or(&path.edges[k].0.variable, anon_string("_anon_rel_", k));
        let node = var_or(&path.edges[k].1.variable, anon_string("_anon_node_", k));
        assert(rel@ == nth_rel(path@, k as int).variable.unwrap());
        assert(node@ == nth_node(path@, k as int + 1).variable.unwrap());
        push_opt_elem(&mut es, out, i, &rel);
        push_opt_elem(&mut es, out, i, &node);
        k = k + 1;
    }
    GraphElement::Path(es)
}

impl Graph {
    /// Runs the plan (see `execute_plan`), then binds, in each new row, the variable of each
    /// path that has one to the path's elements (see `bind_paths`).
    pub(crate) fn execute_plan_and_bind_paths(&self, plan: &PlanNode, paths: &Vec<Path>, in_res: &ResultSet, out: &mut ResultSet,
        profile: &mut Option<String>, limit: Option<usize>)
        requires
            self.wf(),
            plan_wf(*plan),
            in_res.wf(),
            old(out).wf(),
        ensures
            final(out).wf(),
            final(out)@.rows == old(out)@.rows + bound_rows(
                limited(old(out)@.rows, plan_rows(self@, *plan, in_res@.rows), limit).subrange(
                    old(out)@.rows.len() as int,
                    limited(old(out)@.rows, plan_rows(self@, *plan, in_res@.rows), limit).len() as int),
                paths_view(paths@)),
            old(out)@.columns.to_set().subset_of(final(out)@.columns.to_set()),
            profile_adds(*old(profile), *final(profile), plan_profile(self@, *plan, in_res@.rows, 0, old(out)@.rows.len(), limit)),
    {
        let ghost start = out@;
        let n0 = out.rows();
        self.execute_plan(plan, in_res, out, profile, 0, limit);
        let ghost mid = out@.rows;
        proof {
            let lim = limited(start.rows, plan_rows(self@, *plan, in_res@.rows), limit);
            assert(mid == lim);
            assert(lim.subrange(0, n0 as int) == start.rows) by {
                match limit {
                    None => { assert(lim.subrange(0, n0 as int) =~= start.rows); },
                    Some(l) => {
                        if start.rows.len() >= l {
                        } else {
                            assert(lim.subrange(0, n0 as int) =~= start.rows);
                        }
                    },
                }
            }
            assert(start.columns.to_set().subset_of(out@.columns.to_set()));
        }
        let n = out.rows();
        let ghost pv = paths_view(paths@);
        let mut pi: usize = 0;
        while pi < paths.len()
            invariant
                out.wf(),
                n == out@.rows.len(),
                n == mid.len(),
                n0 <= n,
                pv == paths_view(paths@),
                pi <= paths@.len(),
                forall|j: int| 0 <= j < n0 ==> #[trigger] out@.rows[j] == mid[j],
                forall|j: int| n0 <= j < n ==> #[trigger] out@.rows[j] == bind_paths(mid[j], pv.subrange(0, pi as int)),
                start.columns.to_set().subset_of(out@.columns.to_set()),
            decreases paths@.len() - pi,
        {
            let path = &paths[pi];
            proof {
                assert(pv.subrange(0, pi as int + 1).drop_last() =~= pv.subrange(0, pi as int));
                assert(pv.subrange(0, pi as int + 1).last() == path@);
            }
            match &path.bound_variable {
                Some(bv) => {
                    let mut i: usize = n0;
                    while i < n
                        invariant
                            out.wf(),
                            n == out@.rows.len(),
                            n == mid.len(),
                            n0 <= i <= n,
                            pv == paths_view(paths@),
                            pi < paths@.len(),
                            path@ == pv[pi as int],
                            pv.subrange(0, pi as int + 1).drop_last() == pv.subrange(0, pi as int),
                            pv.subrange(0, pi as int + 1).last() == path@,
                            path.bound_variable == Some(*bv),
                            forall|j: int| 0 <= j < n0 ==> #[trigger] out@.rows[j] == mid[j],
                            forall|j: int| n0 <= j < i ==> #[trigger] out@.rows[j] == bind_paths(mid[j], pv.subrange(0, pi as int + 1)),
                            forall|j: int| i <= j < n ==> #[trigger] out@.rows[j] == bind_paths(mid[j], pv.subrange(0, pi as int)),
                            start.columns.to_set().subset_of(out@.columns.to_set()),
                        decreases n - i,
                    {
                        let v = path_value(out, i, path);
                        let ghost before = out@;
                        out.set_value(i, bv.as_str(), v);
                        proof {
                            assert(bind_paths(mid[i as int], pv.subrange(0, pi as int + 1))
                                == bind_path(bind_paths(mid[i as int], pv.subrange(0, pi as int)), path@));
                            assert forall|j: int| 0 <= j < n0 implies #[trigger] out@.rows[j] == mid[j] by {
                                assert(out@.rows[j] == before.rows[j]);
                            }
                            assert forall|j: int| n0 <= j < i + 1 implies #[trigger] out@.rows[j] == bind_paths(mid[j], pv.subrange(0, pi as int + 1)) by {
                                if j < i {
                                    assert(out@.rows[j] == before.rows[j]);
                                }
                            }
                            assert forall|j: int| i + 1 <= j < n implies #[trigger] out@.rows[j] == bind_paths(mid[j], pv.subrange(0, pi as int)) by {
                                assert(out@.rows[j] == before.rows[j]);
                            }
                        }
                        i = i + 1;
                    }
                },
                None => {
                    proof {
                        assert forall|j: int| n0 <= j < n implies #[trigger] out@.rows[j] == bind_paths(mid[j], pv.subrange(0, pi as int + 1)) by {
                            assert(bind_paths(mid[j], pv.subrange(0, pi as int + 1)) == bind_path(bind_paths(mid[j], pv.subrange(0, pi as int)), path@));
                        }
                    }
                },
            }
            pi = pi + 1;
        }
        proof {
            assert(pv.subrange(0, pv.len() as int) =~= pv);
            let lim = limited(start.rows, plan_rows(self@, *plan, in_res@.rows), limit);
            assert(out@.rows =~= start.rows + bound_rows(lim.subrange(n0 as int, lim.len() as int), pv));
        }
    }
}

} // verus!
