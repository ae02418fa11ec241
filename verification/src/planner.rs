use vstd::prelude::*;
use crate::graph::{indices_view, PropertyIndex};
use crate::graph::model::{has_index, index_at, IndexV};
use crate::keyed::key_lt;
use crate::graph::types::IndexType;
use crate::parser::{
    Clause, CompareOp, Condition, Expression, NodePattern, OrderItem, Path, ProjectionItem, Query, RelPattern,
    clauses_view, cond_view, items_view, names_view, opt_cond_view, opt_order_view, opt_str_view, paths_view,
    NodePatternV, PathV,
};
use crate::parser::clauses::{clause_wf, clauses_wf, lemma_clauses_wf};
use crate::parser::copy::{copy_opt_string, copy_paths, copy_items, copy_order, copy_names};
use crate::parser::grammar::{path_wf, paths_wf, steps_wf};
use crate::property::{PropV, PropertyMap, PropertyValue};
use crate::string_pool::StringPool;
use crate::text::{copy_string, own, push_usize};

verus! {

/// A step of the plan for matching patterns.
#[derive(Debug)]
pub enum PlanNode {
    FullNodeScan { pattern: NodePattern },
    NodeLabelLookup { label: String, pattern: NodePattern },
    NodeIndexLookup { label: String, property: String, value: PropertyValue, pattern: NodePattern },
    PathExpand { source: Box<PlanNode>, source_node_pattern: NodePattern, rel_pattern: RelPattern, target_node_pattern: NodePattern },
    Intersect { left: Box<PlanNode>, right: Box<PlanNode> },
    Union { left: Box<PlanNode>, right: Box<PlanNode> },
    HashJoin { left: Box<PlanNode>, right: Box<PlanNode>, join_keys: Vec<String> },
    CrossProduct { left: Box<PlanNode>, right: Box<PlanNode> },
}

/// Every pattern of the plan has well-formed properties.
pub open spec fn plan_wf(p: PlanNode) -> bool
    decreases p,
{
    match p {
        PlanNode::FullNodeScan { pattern } => pattern.properties.wf(),
        PlanNode::NodeLabelLookup { pattern, .. } => pattern.properties.wf(),
        PlanNode::NodeIndexLookup { value, pattern, .. } => value.wf() && pattern.properties.wf(),
        PlanNode::PathExpand { source, source_node_pattern, rel_pattern, target_node_pattern } =>
            plan_wf(*source) && source_node_pattern.properties.wf() && rel_pattern.properties.wf() && target_node_pattern.properties.wf(),
        PlanNode::Intersect { left, right } => plan_wf(*left) && plan_wf(*right),
        PlanNode::Union { left, right } => plan_wf(*left) && plan_wf(*right),
        PlanNode::HashJoin { left, right, .. } => plan_wf(*left) && plan_wf(*right),
        PlanNode::CrossProduct { left, right } => plan_wf(*left) && plan_wf(*right),
    }
}

/// Plans queries.
pub struct QueryPlanner;

/// What a query does, step by step.
#[derive(Debug)]
pub enum ExecutionStep {
    Create(Vec<Path>),
    Match(Option<PlanNode>, Vec<Path>, Option<Condition>, Option<usize>),
    Merge(Vec<(Option<PlanNode>, Path)>),
    SetProperty(String, String, PropertyValue),
    CreateIndex { label: String, property: String, index_type: IndexType },
    Return(Vec<ProjectionItem>, Option<Vec<OrderItem>>, Option<usize>),
    With(Vec<ProjectionItem>, Option<Vec<OrderItem>>, Option<usize>),
    Unwind(Vec<ProjectionItem>),
    Delete(Vec<String>),
}

/// A query's plan: whether to profile it, and its steps.
#[derive(Debug)]
pub struct QueryPlan {
    pub profile: bool,
    pub steps: Vec<ExecutionStep>,
}

/// The step's patterns and values are well formed, and every plan it holds is.
pub open spec fn step_wf(s: ExecutionStep) -> bool {
    match s {
        ExecutionStep::Create(ps) => paths_wf(ps@),
        ExecutionStep::Match(p, ps, _, _) => paths_wf(ps@) && (p matches Some(pl) ==> plan_wf(pl)),
        ExecutionStep::Merge(pps) => forall|i: int| 0 <= i < pps@.len() ==>
            path_wf(#[trigger] pps@[i].1) && (pps@[i].0 matches Some(pl) ==> plan_wf(pl)),
        ExecutionStep::SetProperty(_, _, v) => v.wf(),
        _ => true,
    }
}

pub open spec fn steps_wf_all(ss: Seq<ExecutionStep>) -> bool {
    forall|i: int| 0 <= i < ss.len() ==> #[trigger] step_wf(ss[i])
}

// ---------------------------------------------------------------------------------------------
// Properties a condition fixes, for index selection.

/// For each variable, the properties that a condition's top-level equalities fix.
pub type ExtractedProps = Vec<(String, PropertyMap)>;

/// Variables are listed once and their maps are well formed.
pub open spec fn extracted_wf(es: Seq<(String, PropertyMap)>) -> bool {
    &&& forall|i: int| 0 <= i < es.len() ==> (#[trigger] es[i]).1.wf()
    &&& forall|i: int, j: int| 0 <= i < es.len() && 0 <= j < es.len() && i != j ==> (#[trigger] es[i]).0@ != (#[trigger] es[j]).0@
}

/// The properties fixed for each variable, as a map.
pub open spec fn extracted_view(es: Seq<(String, PropertyMap)>) -> Map<Seq<char>, Map<Seq<char>, PropV>> {
    Map::new(
        |v: Seq<char>| exists|i: int| 0 <= i < es.len() && #[trigger] es[i].0@ == v,
        |v: Seq<char>| es[choose|i: int| 0 <= i < es.len() && #[trigger] es[i].0@ == v].1@,
    )
}

/// The value of a literal expression.
pub open spec fn literal_value(e: crate::parser::ExprV) -> Option<PropV> {
    match e {
        crate::parser::ExprV::StringLiteral(s) => Some(PropV::Text(s)),
        crate::parser::ExprV::NumberLiteral(n) => Some(PropV::Number(n)),
        crate::parser::ExprV::BooleanLiteral(b) => Some(PropV::Boolean(b)),
        _ => None,
    }
}

/// `m` with `var.prop` fixed to `val`.
pub open spec fn fix_prop(m: Map<Seq<char>, Map<Seq<char>, PropV>>, var: Seq<char>, prop: Seq<char>, val: PropV) -> Map<Seq<char>, Map<Seq<char>, PropV>> {
    let inner = if m.contains_key(var) { m[var] } else { Map::empty() };
    m.insert(var, inner.insert(prop, val))
}

/// The properties fixed after reading the equalities `var.prop = literal` (either way round) that
/// the condition joins with `AND` at its top.
pub open spec fn extract_spec(c: crate::parser::CondV, m: Map<Seq<char>, Map<Seq<char>, PropV>>) -> Map<Seq<char>, Map<Seq<char>, PropV>>
    decreases c,
{
    match c {
        crate::parser::CondV::And(l, r) => extract_spec(*r, extract_spec(*l, m)),
        crate::parser::CondV::Compare { left, op, right } => {
            if op == CompareOp::Eq {
                match left {
                    crate::parser::ExprV::Property(v, p) => match literal_value(right) {
                        Some(val) => fix_prop(m, v, p, val),
                        None => m,
                    },
                    _ => match right {
                        crate::parser::ExprV::Property(v, p) => match literal_value(left) {
                            Some(val) => fix_prop(m, v, p, val),
                            None => m,
                        },
                        _ => m,
                    },
                }
            } else {
                m
            }
        },
        _ => m,
    }
}

// ---------------------------------------------------------------------------------------------
// Choosing how to find the nodes of a pattern.

/// The first of the properties (in the order given) that has an index for the label.
pub open spec fn first_indexed(ps: Seq<(Seq<char>, PropV)>, ixs: Seq<IndexV>, label: usize) -> Option<(Seq<char>, PropV)>
    decreases ps.len(),
{
    if ps.len() == 0 {
        None
    } else if has_index(ixs, label, ps[0].0) {
        Some(ps[0])
    } else {
        first_indexed(ps.drop_first(), ixs, label)
    }
}

/// Skipping properties that have no index does not change the first that has one.
pub proof fn lemma_first_indexed_skip(ps: Seq<(Seq<char>, PropV)>, ixs: Seq<IndexV>, label: usize, i: int)
    requires
        0 <= i <= ps.len(),
        forall|j: int| 0 <= j < i ==> !has_index(ixs, label, #[trigger] ps[j].0),
    ensures
        first_indexed(ps, ixs, label) == first_indexed(ps.subrange(i, ps.len() as int), ixs, label),
    decreases i,
{
    if i > 0 {
        assert(!has_index(ixs, label, ps[0].0));
        let t = ps.drop_first();
        assert forall|j: int| 0 <= j < i - 1 implies !has_index(ixs, label, #[trigger] t[j].0) by {
            assert(t[j] == ps[j + 1]);
        }
        lemma_first_indexed_skip(t, ixs, label, i - 1);
        assert(t.subrange(i - 1, t.len() as int) =~= ps.subrange(i, ps.len() as int));
    } else {
        assert(ps.subrange(0, ps.len() as int) =~= ps);
    }
}

/// There is an index for `label` and `prop`.
pub fn index_exists(indices: &Vec<PropertyIndex>, label: usize, prop: &str) -> (r: bool)
    ensures
        r == has_index(indices_view(indices@), label, prop@),
{
    let mut i: usize = 0;
    while i < indices.len()
        invariant
            i <= indices@.len(),
            forall|j: int| 0 <= j < i ==> !index_at(indices_view(indices@), label, prop@, j),
        decreases indices@.len() - i,
    {
        if indices[i].label == label && crate::keyed::str_eq(indices[i].property.as_str(), prop) {
            assert(index_at(indices_view(indices@), label, prop@, i as int));
            return true;
        }
        i = i + 1;
    }
    proof {
        assert forall|j: int| !index_at(indices_view(indices@), label, prop@, j) by {
            if 0 <= j < indices@.len() {
                assert(!index_at(indices_view(indices@), label, prop@, j));
            }
        }
    }
    false
}

/// The first property of `props` (in increasing order of names) that has an index for the label.
pub fn first_indexed_exec(props: &PropertyMap, indices: &Vec<PropertyIndex>, label: usize) -> (r: Option<(String, PropertyValue)>)
    requires
        props.wf(),
    ensures
        match r {
            Some((k, v)) => first_indexed(props.ordered(), indices_view(indices@), label) == Some((k@, v@)),
            None => first_indexed(props.ordered(), indices_view(indices@), label) is None,
        },
        r matches Some((_, v)) ==> v.wf(),
{
    let n = props.len();
    let ghost ps = props.ordered();
    let ghost ixs = indices_view(indices@);
    let mut i: usize = 0;
    while i < n
        invariant
            n == ps.len(),
            ps == props.ordered(),
            ixs == indices_view(indices@),
            props.wf(),
            i <= n,
            forall|j: int| 0 <= j < i ==> !has_index(ixs, label, #[trigger] ps[j].0),
        decreases n - i,
    {
        let (k, v) = props.entry(i);
        if index_exists(indices, label, k.as_str()) {
            proof {
                lemma_first_indexed_skip(ps, ixs, label, i as int);
                assert(ps.subrange(i as int, ps.len() as int)[0] == ps[i as int]);
            }
            return Some((copy_string(k), v.copy()));
        }
        i = i + 1;
    }
    proof {
        lemma_first_indexed_skip(ps, ixs, label, n as int);
    }
    None
}

/// The map of fixed properties of `var`, if the condition fixed any.
fn extracted_for<'a>(es: &'a ExtractedProps, var: &str) -> (r: Option<&'a PropertyMap>)
    requires
        extracted_wf(es@),
    ensures
        match r {
            Some(m) => extracted_view(es@).contains_key(var@) && extracted_view(es@)[var@] == m@ && m.wf(),
            None => !extracted_view(es@).contains_key(var@),
        },
{
    let mut i: usize = 0;
    while i < es.len()
        invariant
            extracted_wf(es@),
            i <= es@.len(),
            forall|j: int| 0 <= j < i ==> es@[j].0@ != var@,
        decreases es@.len() - i,
    {
        if crate::keyed::str_eq(es[i].0.as_str(), var) {
            proof {
                let j = choose|j: int| 0 <= j < es@.len() && #[trigger] es@[j].0@ == var@;
                assert(es@[i as int].0@ == var@);
            }
            return Some(&es[i].1);
        }
        i = i + 1;
    }
    None
}

/// Among the properties of `m`, `k` is the least name (in the order of names) that has an
/// index for the label.
pub open spec fn least_indexed(m: Map<Seq<char>, PropV>, ixs: Seq<IndexV>, label: usize, k: Seq<char>) -> bool {
    &&& m.contains_key(k)
    &&& has_index(ixs, label, k)
    &&& forall|k2: Seq<char>| #[trigger] m.contains_key(k2) && has_index(ixs, label, k2) ==> !key_lt(k2, k)
}

/// Some property of `m` has an index for the label.
pub open spec fn any_indexed(m: Map<Seq<char>, PropV>, ixs: Seq<IndexV>, label: usize) -> bool {
    exists|k: Seq<char>| #[trigger] m.contains_key(k) && has_index(ixs, label, k)
}

/// The properties the condition fixes for the pattern's variable (none when it has none).
pub open spec fn fixed_props(np: NodePatternV, ex: Map<Seq<char>, Map<Seq<char>, PropV>>) -> Map<Seq<char>, PropV> {
    match np.variable {
        Some(v) => if ex.contains_key(v) { ex[v] } else { Map::empty() },
        None => Map::empty(),
    }
}

/// `p` is the lookup the planner picks for pattern `np`, given the label names, the indices and
/// the properties the condition fixes: with no label, a full scan; with a label the graph knows
/// and a property of the pattern that has an index, an index lookup on the least such property
/// and its value; else, likewise, on the least property the condition fixes; else a label
/// lookup.
pub open spec fn chosen_lookup(p: PlanNode, np: NodePatternV, labels: Seq<Seq<char>>, ixs: Seq<IndexV>,
    ex: Map<Seq<char>, Map<Seq<char>, PropV>>) -> bool
{
    match np.label {
        None => p matches PlanNode::FullNodeScan { pattern } && pattern@ == np,
        Some(l) => {
            let id = crate::string_pool::position_of(labels, l) as usize;
            let fixed = fixed_props(np, ex);
            if labels.contains(l) && any_indexed(np.properties, ixs, id) {
                p matches PlanNode::NodeIndexLookup { label, property, value, pattern } && label@ == l && pattern@ == np
                    && least_indexed(np.properties, ixs, id, property@) && value@ == np.properties[property@]
            } else if labels.contains(l) && any_indexed(fixed, ixs, id) {
                p matches PlanNode::NodeIndexLookup { label, property, value, pattern } && label@ == l && pattern@ == np
                    && least_indexed(fixed, ixs, id, property@) && value@ == fixed[property@]
            } else {
                p matches PlanNode::NodeLabelLookup { label, pattern } && label@ == l && pattern@ == np
            }
        },
    }
}

/// What `first_indexed` finds in properties listed in increasing order of names is the least
/// property that has an index, with its value; when it finds nothing, none has one.
pub proof fn lemma_first_indexed_least(m: PropertyMap, ixs: Seq<IndexV>, label: usize)
    requires
        m.wf(),
    ensures
        match first_indexed(m.ordered(), ixs, label) {
            Some((k, v)) => least_indexed(m@, ixs, label, k) && m@[k] == v,
            None => !any_indexed(m@, ixs, label),
        },
{
    m.lemma_ordered();
    let ps = m.ordered();
    match first_indexed(ps, ixs, label) {
        Some((k, v)) => {
            lemma_first_indexed_pos(ps, ixs, label);
            let i = choose|i: int| 0 <= i < ps.len() && ps[i] == (k, v)
                && forall|j: int| 0 <= j < i ==> !has_index(ixs, label, #[trigger] ps[j].0);
            assert(m@.contains_key(ps[i].0));
            lemma_first_indexed_in(ps, ixs, label);
            assert forall|k2: Seq<char>| #[trigger] m@.contains_key(k2) && has_index(ixs, label, k2) implies !key_lt(k2, k) by {
                let j = choose|j: int| 0 <= j < ps.len() && #[trigger] ps[j].0 == k2;
                if j < i {
                    assert(!has_index(ixs, label, ps[j].0));
                } else if j == i {
                    crate::keyed::lemma_key_lt_irreflexive(k);
                } else {
                    assert(key_lt(ps[i].0, ps[j].0));
                    crate::keyed::lemma_key_lt_asymmetric(k, k2);
                }
            }
        },
        None => {
            assert forall|k: Seq<char>| #[trigger] m@.contains_key(k) implies !has_index(ixs, label, k) by {
                let j = choose|j: int| 0 <= j < ps.len() && #[trigger] ps[j].0 == k;
                lemma_first_indexed_none(ps, ixs, label, j);
            }
        },
    }
}

/// Where `first_indexed` finds a property, and that none before it has an index.
proof fn lemma_first_indexed_pos(ps: Seq<(Seq<char>, PropV)>, ixs: Seq<IndexV>, label: usize)
    ensures
        first_indexed(ps, ixs, label) matches Some(kv) ==> exists|i: int| 0 <= i < ps.len() && ps[i] == kv
            && forall|j: int| 0 <= j < i ==> !has_index(ixs, label, #[trigger] ps[j].0),
    decreases ps.len(),
{
    if ps.len() > 0 {
        if has_index(ixs, label, ps[0].0) {
            assert(ps[0] == ps[0]);
        } else {
            lemma_first_indexed_pos(ps.drop_first(), ixs, label);
            if let Some(kv) = first_indexed(ps, ixs, label) {
                let i = choose|i: int| 0 <= i < ps.drop_first().len() && ps.drop_first()[i] == kv
                    && forall|j: int| 0 <= j < i ==> !has_index(ixs, label, #[trigger] ps.drop_first()[j].0);
                assert(ps[i + 1] == kv);
                assert forall|j: int| 0 <= j < i + 1 implies !has_index(ixs, label, #[trigger] ps[j].0) by {
                    if j > 0 {
                        assert(ps[j] == ps.drop_first()[j - 1]);
                    }
                }
            }
        }
    }
}

impl QueryPlanner {
    /// How to find the nodes of a pattern: through an index when the pattern has a label that is
    /// known and fixes (itself, or through the condition's equalities on its variable) a property
    /// that has an index for that label, the pattern's own properties tried first, each list in
    /// increasing order of names; else through the label; else by a full scan.
    pub fn plan_node_lookup(
        pattern: &NodePattern,
        labels: &StringPool,
        indices: &Vec<PropertyIndex>,
        extracted_props: &ExtractedProps,
    ) -> (r: PlanNode)
        requires
            pattern.properties.wf(),
            labels.wf(),
            extracted_wf(extracted_props@),
        ensures
            plan_wf(r),
            match r {
                PlanNode::FullNodeScan { pattern: p } => p@ == pattern@ && pattern.label is None,
                PlanNode::NodeLabelLookup { label, pattern: p } => p@ == pattern@ && opt_str_view(pattern.label) == Some(label@)
                    && (labels@.contains(label@) ==> ({
                        let id = crate::string_pool::position_of(labels@, label@);
                        &&& first_indexed(pattern.properties.ordered(), indices_view(indices@), id as usize) is None
                        &&& (pattern.variable matches Some(v) ==> (extracted_view(extracted_props@).contains_key(v@)
                            ==> !exists|k: Seq<char>| #[trigger] extracted_view(extracted_props@)[v@].contains_key(k)
                                && has_index(indices_view(indices@), id as usize, k)))
                    })),
                PlanNode::NodeIndexLookup { label, property, value, pattern: p } => p@ == pattern@ && opt_str_view(pattern.label) == Some(label@)
                    && labels@.contains(label@) && ({
                        let id = crate::string_pool::position_of(labels@, label@);
                        &&& has_index(indices_view(indices@), id as usize, property@)
                        &&& match first_indexed(pattern.properties.ordered(), indices_view(indices@), id as usize) {
                            Some((k, v)) => k == property@ && v == value@,
                            None => pattern.variable matches Some(var) && extracted_view(extracted_props@).contains_key(var@)
                                && extracted_view(extracted_props@)[var@].contains_key(property@)
                                && extracted_view(extracted_props@)[var@][property@] == value@,
                        }
                    }),
                _ => false,
            },
            chosen_lookup(r, pattern@, labels@, indices_view(indices@), extracted_view(extracted_props@)),
    {
        match &pattern.label {
            None => PlanNode::FullNodeScan { pattern: pattern.copy() },
            Some(label_name) => {
                match labels.get(label_name.as_str()) {
                    Some(label_id) => {
                        proof {
                            labels.lemma_unique();
                            let j = crate::string_pool::position_of(labels@, label_name@);
                            assert(crate::string_pool::interned_at(labels@, label_name@, j));
                            assert(crate::string_pool::interned_at(labels@, label_name@, label_id as int));
                            lemma_first_indexed_least(pattern.properties, indices_view(indices@), label_id);
                            assert(labels@.contains(label_name@));
                        }
                        match first_indexed_exec(&pattern.properties, indices, label_id) {
                            Some((k, v)) => {
                                proof { crate::planner::lemma_first_indexed_in(pattern.properties.ordered(), indices_view(indices@), label_id); }
                                return PlanNode::NodeIndexLookup { label: copy_string(label_name), property: k, value: v, pattern: pattern.copy() };
                            },
                            None => {},
                        }
                        match &pattern.variable {
                            Some(var) => match extracted_for(extracted_props, var.as_str()) {
                                Some(props) => {
                                    proof { lemma_first_indexed_least(*props, indices_view(indices@), label_id); }
                                    match first_indexed_exec(props, indices, label_id) {
                                        Some((k, v)) => {
                                            proof {
                                                props.lemma_ordered();
                                                crate::planner::lemma_first_indexed_in(props.ordered(), indices_view(indices@), label_id);
                                            }
                                            return PlanNode::NodeIndexLookup { label: copy_string(label_name), property: k, value: v, pattern: pattern.copy() };
                                        },
                                        None => {
                                            proof {
                                                props.lemma_ordered();
                                                assert forall|k: Seq<char>| #[trigger] props@.contains_key(k)
                                                    && has_index(indices_view(indices@), label_id, k) implies false by {
                                                    let i = choose|i: int| 0 <= i < props.ordered().len() && #[trigger] props.ordered()[i].0 == k;
                                                    crate::planner::lemma_first_indexed_none(props.ordered(), indices_view(indices@), label_id, i);
                                                }
                                            }
                                        },
                                    }
                                },
                                None => {},
                            },
                            None => {},
                        }
                        PlanNode::NodeLabelLookup { label: copy_string(label_name), pattern: pattern.copy() }
                    },
                    None => PlanNode::NodeLabelLookup { label: copy_string(label_name), pattern: pattern.copy() },
                }
            },
        }
    }
}

/// What `first_indexed` finds is one of the properties, and has an index.
pub proof fn lemma_first_indexed_in(ps: Seq<(Seq<char>, PropV)>, ixs: Seq<IndexV>, label: usize)
    ensures
        first_indexed(ps, ixs, label) matches Some(kv) ==> has_index(ixs, label, kv.0)
            && exists|i: int| 0 <= i < ps.len() && #[trigger] ps[i] == kv,
    decreases ps.len(),
{
    if ps.len() > 0 && !has_index(ixs, label, ps[0].0) {
        lemma_first_indexed_in(ps.drop_first(), ixs, label);
        if let Some(kv) = first_indexed(ps, ixs, label) {
            let i = choose|i: int| 0 <= i < ps.drop_first().len() && #[trigger] ps.drop_first()[i] == kv;
            assert(ps[i + 1] == kv);
        }
    } else if ps.len() > 0 {
        assert(ps[0] == ps[0]);
    }
}

/// When `first_indexed` finds nothing, no property has an index.
pub proof fn lemma_first_indexed_none(ps: Seq<(Seq<char>, PropV)>, ixs: Seq<IndexV>, label: usize, i: int)
    requires
        first_indexed(ps, ixs, label) is None,
        0 <= i < ps.len(),
    ensures
        !has_index(ixs, label, ps[i].0),
    decreases ps.len(),
{
    if i > 0 {
        lemma_first_indexed_none(ps.drop_first(), ixs, label, i - 1);
        assert(ps.drop_first()[i - 1] == ps[i]);
    }
}

// ---------------------------------------------------------------------------------------------
// Planning paths.

/// The name given to an unnamed element: a prefix and a position.
pub open spec fn anon_name(prefix: Seq<char>, i: nat) -> Seq<char> {
    prefix + crate::text::nat_text(i)
}

/// A node pattern with its variable set to `name` when it has none.
pub open spec fn named_node(np: NodePatternV, name: Seq<char>) -> NodePatternV {
    if np.variable is None { NodePatternV { variable: Some(name), ..np } } else { np }
}

/// A relationship pattern with its variable set to `name` when it has none.
pub open spec fn named_rel(rp: crate::parser::RelPatternV, name: Seq<char>) -> crate::parser::RelPatternV {
    if rp.variable is None { crate::parser::RelPatternV { variable: Some(name), ..rp } } else { rp }
}

/// Node `i` of a path (0 is the start) as the plan matches it, unnamed nodes named.
pub open spec fn nth_node(path: PathV, i: int) -> NodePatternV {
    if i == 0 {
        named_node(path.start, "_anon_start"@)
    } else {
        named_node(path.edges[i - 1].1, anon_name("_anon_node_"@, (i - 1) as nat))
    }
}

/// Relationship `i` of a path as the plan matches it, unnamed ones named.
pub open spec fn nth_rel(path: PathV, i: int) -> crate::parser::RelPatternV {
    named_rel(path.edges[i].0, anon_name("_anon_rel_"@, i as nat))
}

/// The plan finds the nodes of `np` directly (scan, label or index).
pub open spec fn is_lookup_of(p: PlanNode, np: NodePatternV) -> bool {
    match p {
        PlanNode::FullNodeScan { pattern } => pattern@ == np,
        PlanNode::NodeLabelLookup { pattern, .. } => pattern@ == np,
        PlanNode::NodeIndexLookup { pattern, .. } => pattern@ == np,
        _ => false,
    }
}

/// The plan finds the start node of the path and then follows its first `k` relationships.
pub open spec fn expands(p: PlanNode, path: PathV, k: nat) -> bool
    decreases k,
{
    if k == 0 {
        is_lookup_of(p, nth_node(path, 0))
    } else {
        match p {
            PlanNode::PathExpand { source, source_node_pattern, rel_pattern, target_node_pattern } =>
                source_node_pattern@ == nth_node(path, k - 1) && rel_pattern@ == nth_rel(path, (k - 1) as int)
                    && target_node_pattern@ == nth_node(path, k as int) && expands(*source, path, (k - 1) as nat),
            _ => false,
        }
    }
}

/// `p` follows the path as `expands` says and finds its start node with the lookup the planner
/// picks (see `chosen_lookup`).
pub open spec fn path_chosen(p: PlanNode, path: PathV, k: nat, labels: Seq<Seq<char>>, ixs: Seq<IndexV>,
    ex: Map<Seq<char>, Map<Seq<char>, PropV>>) -> bool
    decreases k,
{
    if k == 0 {
        chosen_lookup(p, nth_node(path, 0), labels, ixs, ex)
    } else {
        match p {
            PlanNode::PathExpand { source, .. } => path_chosen(*source, path, (k - 1) as nat, labels, ixs, ex),
            _ => false,
        }
    }
}

/// `prefix` followed by the decimal digits of `i`.
pub(crate) fn anon_string(prefix: &str, i: usize) -> (r: String)
    ensures
        r@ == anon_name(prefix@, i as nat),
{
    let mut s = own(prefix);
    push_usize(&mut s, i);
    s
}

/// A copy of a node pattern with its variable set to `name` when it has none.
fn name_node(np: &NodePattern, name: String) -> (r: NodePattern)
    requires
        np.properties.wf(),
    ensures
        r@ == named_node(np@, name@),
        r.properties.wf(),
{
    let mut c = np.copy();
    if c.variable.is_none() {
        c.variable = Some(name);
    }
    c
}

/// A copy of a relationship pattern with its variable set to `name` when it has none.
fn name_rel(rp: &RelPattern, name: String) -> (r: RelPattern)
    requires
        rp.properties.wf(),
    ensures
        r@ == named_rel(rp@, name@),
        r.properties.wf(),
{
    let mut c = rp.copy();
    if c.variable.is_none() {
        c.variable = Some(name);
    }
    c
}

impl QueryPlanner {
    /// The plan for one path: find its start node (see `plan_node_lookup`), then follow each
    /// relationship to the next node; unnamed nodes and relationships get names of their own
    /// (`_anon_start`, `_anon_node_i`, `_anon_rel_i`).
    pub fn plan_match_path(
        path: &Path,
        labels: &StringPool,
        indices: &Vec<PropertyIndex>,
        extracted_props: &ExtractedProps,
    ) -> (r: PlanNode)
        requires
            path_wf(*path),
            labels.wf(),
            extracted_wf(extracted_props@),
        ensures
            plan_wf(r),
            expands(r, path@, path@.edges.len()),
            path_chosen(r, path@, path@.edges.len(), labels@, indices_view(indices@), extracted_view(extracted_props@)),
    {
        proof { reveal_strlit("_anon_start"); }
        let start_pattern = name_node(&path.start, own("_anon_start"));
        let mut plan = Self::plan_node_lookup(&start_pattern, labels, indices, extracted_props);
        let mut prev = start_pattern.copy();
        let mut idx: usize = 0;
        while idx < path.edges.len()
            invariant
                path_wf(*path),
                idx <= path.edges@.len(),
                plan_wf(plan),
                prev.properties.wf(),
                prev@ == nth_node(path@, idx as int),
                expands(plan, path@, idx as nat),
                path_chosen(plan, path@, idx as nat, labels@, indices_view(indices@), extracted_view(extracted_props@)),
            decreases path.edges@.len() - idx,
        {
            assert(path.edges@[idx as int].0.properties.wf() && path.edges@[idx as int].1.properties.wf());
            let target = name_node(&path.edges[idx].1, anon_string("_anon_node_", idx));
            let rel = name_rel(&path.edges[idx].0, anon_string("_anon_rel_", idx));
            let next_prev = target.copy();
            plan = PlanNode::PathExpand { source: Box::new(plan), source_node_pattern: prev, rel_pattern: rel, target_node_pattern: target };
            prev = next_prev;
            idx = idx + 1;
        }
        plan
    }

    /// The names a path binds: its nodes' and relationships' variables, each once.
    pub fn extract_variables(path: &Path) -> (r: Vec<String>)
        ensures
            names_view(r@).no_duplicates(),
            names_view(r@).to_set() == path_vars(path@),
    {
        let mut vars: Vec<String> = Vec::new();
        proof { assert(names_view(vars@).to_set() =~= Set::<Seq<char>>::empty()); }
        match &path.start.variable {
            Some(v) => add_name(&mut vars, v),
            None => {},
        }
        let mut i: usize = 0;
        while i < path.edges.len()
            invariant
                i <= path.edges@.len(),
                names_view(vars@).no_duplicates(),
                names_view(vars@).to_set() == path_vars_upto(path@, i as nat),
            decreases path.edges@.len() - i,
        {
            match &path.edges[i].0.variable {
                Some(v) => add_name(&mut vars, v),
                None => {},
            }
            match &path.edges[i].1.variable {
                Some(v) => add_name(&mut vars, v),
                None => {},
            }
            proof {
                assert(path_vars_upto(path@, (i + 1) as nat) =~= path_vars_upto(path@, i as nat)
                    .union(opt_set(path@.edges[i as int].0.variable)).union(opt_set(path@.edges[i as int].1.variable)));
            }
            i = i + 1;
        }
        vars
    }
}

/// The set holding the name, if there is one.
pub open spec fn opt_set(o: Option<Seq<char>>) -> Set<Seq<char>> {
    match o {
        Some(v) => set![v],
        None => Set::empty(),
    }
}

/// The names bound by the start node and the first `k` steps of a path.
pub open spec fn path_vars_upto(p: PathV, k: nat) -> Set<Seq<char>>
    decreases k,
{
    if k == 0 {
        opt_set(p.start.variable)
    } else {
        path_vars_upto(p, (k - 1) as nat).union(opt_set(p.edges[k - 1].0.variable)).union(opt_set(p.edges[k - 1].1.variable))
    }
}

/// The names a path binds.
pub open spec fn path_vars(p: PathV) -> Set<Seq<char>> {
    path_vars_upto(p, p.edges.len())
}

/// Adds `v` to a list of distinct names unless it is there.
fn add_name(vars: &mut Vec<String>, v: &String)
    requires
        names_view(old(vars)@).no_duplicates(),
    ensures
        names_view(final(vars)@).no_duplicates(),
        names_view(final(vars)@).to_set() == names_view(old(vars)@).to_set().insert(v@),
{
    let mut i: usize = 0;
    while i < vars.len()
        invariant
            vars == old(vars),
            names_view(old(vars)@).no_duplicates(),
            i <= vars@.len(),
            forall|j: int| 0 <= j < i ==> vars@[j]@ != v@,
        decreases vars@.len() - i,
    {
        if crate::keyed::str_eq(vars[i].as_str(), v.as_str()) {
            proof {
                assert(names_view(vars@)[i as int] == v@);
                assert(names_view(vars@).to_set() =~= names_view(vars@).to_set().insert(v@));
            }
            return;
        }
        i = i + 1;
    }
    let ghost before = names_view(vars@);
    vars.push(copy_string(v));
    proof {
        assert(names_view(vars@) =~= before.push(v@));
        assert forall|a: int, b: int| 0 <= a < names_view(vars@).len() && 0 <= b < names_view(vars@).len() && a != b
            implies names_view(vars@)[a] != names_view(vars@)[b] by {
            if a < before.len() && b < before.len() {
                assert(before[a] != before[b]);
            } else if a == before.len() {
                assert(old(vars)@[b]@ != v@);
            } else {
                assert(old(vars)@[a]@ != v@);
            }
        }
        assert(names_view(vars@).to_set() =~= before.to_set().insert(v@)) by {
            assert forall|x: Seq<char>| names_view(vars@).to_set().contains(x) <==> before.to_set().insert(v@).contains(x) by {
                if names_view(vars@).contains(x) {
                    let q = choose|q: int| 0 <= q < names_view(vars@).len() && names_view(vars@)[q] == x;
                    if q < before.len() { assert(before[q] == x); }
                }
                if before.contains(x) {
                    let q = choose|q: int| 0 <= q < before.len() && before[q] == x;
                    assert(names_view(vars@)[q] == x);
                }
                if x == v@ {
                    assert(names_view(vars@)[before.len() as int] == x);
                }
            }
        }
    }
}

// ---------------------------------------------------------------------------------------------
// Reading a condition, joining paths, and planning a query.

/// Fixes `var.prop` to `val` in the extracted properties.
fn fix_prop_exec(es: &mut ExtractedProps, var: &String, prop: &String, val: PropertyValue)
    requires
        extracted_wf(old(es)@),
        val.wf(),
    ensures
        extracted_wf(final(es)@),
        extracted_view(final(es)@) == fix_prop(extracted_view(old(es)@), var@, prop@, val@),
{
    let ghost m0 = extracted_view(es@);
    let mut i: usize = 0;
    while i < es.len()
        invariant
            es == old(es),
            extracted_wf(es@),
            val.wf(),
            m0 == extracted_view(es@),
            i <= es@.len(),
            forall|j: int| 0 <= j < i ==> es@[j].0@ != var@,
        decreases es@.len() - i,
    {
        if crate::keyed::str_eq(es[i].0.as_str(), var.as_str()) {
            let ghost before = es@;
            proof {
                assert(before[i as int].0@ == var@);
                let q = choose|q: int| 0 <= q < before.len() && #[trigger] before[q].0@ == var@;
                assert(before[q].0@ == var@);
            }
            es[i].1.insert(copy_string(prop), val);
            proof {
                let after = es@;
                assert forall|j: int| 0 <= j < after.len() && j != i implies #[trigger] after[j] == before[j] by {}
                assert forall|v: Seq<char>| #[trigger] extracted_view(after).contains_key(v) == fix_prop(m0, var@, prop@, val@).contains_key(v)
                    && (extracted_view(after).contains_key(v) ==> extracted_view(after)[v] == fix_prop(m0, var@, prop@, val@)[v]) by {
                    if v == var@ {
                        assert(after[i as int].0@ == v);
                        let q = choose|q: int| 0 <= q < after.len() && #[trigger] after[q].0@ == v;
                        assert(q == i) by {
                            if q != i { assert(after[q].0@ == before[q].0@); }
                        }
                    } else if extracted_view(after).contains_key(v) {
                        let q = choose|q: int| 0 <= q < after.len() && #[trigger] after[q].0@ == v;
                        assert(q != i);
                        assert(before[q].0@ == v);
                        let q2 = choose|q2: int| 0 <= q2 < before.len() && #[trigger] before[q2].0@ == v;
                        assert(before[q2].0@ == v);
                        assert(q2 != i);
                        assert(after[q2].0@ == v);
                    } else if m0.contains_key(v) {
                        let q = choose|q: int| 0 <= q < before.len() && #[trigger] before[q].0@ == v;
                        assert(q != i);
                        assert(after[q].0@ == v);
                    }
                }
                assert(extracted_view(after) =~= fix_prop(m0, var@, prop@, val@));
            }
            return;
        }
        i = i + 1;
    }
    let mut m = PropertyMap::new();
    m.insert(copy_string(prop), val);
    let ghost before = es@;
    es.push((copy_string(var), m));
    proof {
        let after = es@;
        assert(!m0.contains_key(var@));
        assert forall|v: Seq<char>| #[trigger] extracted_view(after).contains_key(v) == fix_prop(m0, var@, prop@, val@).contains_key(v)
            && (extracted_view(after).contains_key(v) ==> extracted_view(after)[v] == fix_prop(m0, var@, prop@, val@)[v]) by {
            if v == var@ {
                assert(after[before.len() as int].0@ == v);
                let q = choose|q: int| 0 <= q < after.len() && #[trigger] after[q].0@ == v;
                if q < before.len() { assert(before[q].0@ == v); }
                assert(m@ =~= Map::<Seq<char>, PropV>::empty().insert(prop@, val@));
            } else if extracted_view(after).contains_key(v) {
                let q = choose|q: int| 0 <= q < after.len() && #[trigger] after[q].0@ == v;
                assert(q < before.len());
                assert(before[q].0@ == v);
                let q2 = choose|q2: int| 0 <= q2 < before.len() && #[trigger] before[q2].0@ == v;
                assert(after[q2] == before[q2]);
            } else if m0.contains_key(v) {
                let q = choose|q: int| 0 <= q < before.len() && #[trigger] before[q].0@ == v;
                assert(after[q] == before[q]);
            }
        }
        assert(extracted_view(after) =~= fix_prop(m0, var@, prop@, val@));
        assert forall|a: int, b: int| 0 <= a < after.len() && 0 <= b < after.len() && a != b implies
            (#[trigger] after[a]).0@ != (#[trigger] after[b]).0@ by {
            if a < before.len() && b < before.len() {
                assert(after[a] == before[a] && after[b] == before[b]);
            } else if a == before.len() {
                assert(after[b] == before[b]);
            } else {
                assert(after[a] == before[a]);
            }
        }
    }
}

impl QueryPlanner {
    /// The value of a literal expression.
    pub fn eval_literal(expr: &Expression) -> (r: Option<PropertyValue>)
        requires
            crate::parser::lit_wf(expr@),
        ensures
            match r {
                Some(v) => literal_value(expr@) == Some(v@) && v.wf(),
                None => literal_value(expr@) is None,
            },
    {
        match expr {
            Expression::StringLiteral(s) => Some(PropertyValue::String(copy_string(s))),
            Expression::NumberLiteral(n) => Some(PropertyValue::Number(n.copy())),
            Expression::BooleanLiteral(b) => Some(PropertyValue::Boolean(*b)),
            _ => None,
        }
    }

    /// Records the properties that the condition's top-level equalities `var.prop = literal`
    /// (either way round, joined by `AND`) fix.
    pub fn extract_props_from_condition(condition: &Condition, extracted_props: &mut ExtractedProps)
        requires
            crate::parser::condv_wf(condition@),
            extracted_wf(old(extracted_props)@),
        ensures
            extracted_wf(final(extracted_props)@),
            extracted_view(final(extracted_props)@) == extract_spec(condition@, extracted_view(old(extracted_props)@)),
        decreases condition,
    {
        match condition {
            Condition::And(left, right) => {
                Self::extract_props_from_condition(left, extracted_props);
                Self::extract_props_from_condition(right, extracted_props);
            },
            Condition::Compare { left, op, right } => {
                if matches!(op, CompareOp::Eq) {
                    match left {
                        Expression::Property(var, prop) => {
                            match Self::eval_literal(right) {
                                Some(val) => fix_prop_exec(extracted_props, var, prop, val),
                                None => {},
                            }
                        },
                        _ => match right {
                            Expression::Property(var, prop) => {
                                match Self::eval_literal(left) {
                                    Some(val) => fix_prop_exec(extracted_props, var, prop, val),
                                    None => {},
                                }
                            },
                            _ => {},
                        },
                    }
                }
            },
            _ => {},
        }
    }
}

/// The names bound by the first `k` paths.
pub open spec fn vars_upto(paths: Seq<PathV>, k: nat) -> Set<Seq<char>>
    decreases k,
{
    if k == 0 {
        Set::empty()
    } else {
        vars_upto(paths, (k - 1) as nat).union(path_vars(paths[k - 1]))
    }
}

/// The plan matches the first `k` paths: the first on its own, each later one joined to those
/// before it on the names they share (in increasing order), or crossed with them when they
/// share none.
pub open spec fn joined(p: PlanNode, paths: Seq<PathV>, k: nat) -> bool
    decreases k,
{
    if k <= 1 {
        expands(p, paths[0], paths[0].edges.len())
    } else {
        let shared = vars_upto(paths, (k - 1) as nat).intersect(path_vars(paths[k - 1]));
        match p {
            PlanNode::HashJoin { left, right, join_keys } =>
                shared != Set::<Seq<char>>::empty() && crate::keyed::keys_sorted(names_view(join_keys@))
                    && names_view(join_keys@).to_set() == shared
                    && expands(*right, paths[k - 1], paths[k - 1].edges.len()) && joined(*left, paths, (k - 1) as nat),
            PlanNode::CrossProduct { left, right } =>
                shared == Set::<Seq<char>>::empty()
                    && expands(*right, paths[k - 1], paths[k - 1].edges.len()) && joined(*left, paths, (k - 1) as nat),
            _ => false,
        }
    }
}

/// `p` joins the paths as `joined` says, each path planned with the lookups the planner picks
/// (see `path_chosen`).
pub open spec fn joined_chosen(p: PlanNode, paths: Seq<PathV>, k: nat, labels: Seq<Seq<char>>, ixs: Seq<IndexV>,
    ex: Map<Seq<char>, Map<Seq<char>, PropV>>) -> bool
    decreases k,
{
    if k <= 1 {
        path_chosen(p, paths[0], paths[0].edges.len(), labels, ixs, ex)
    } else {
        match p {
            PlanNode::HashJoin { left, right, .. } =>
                path_chosen(*right, paths[k - 1], paths[k - 1].edges.len(), labels, ixs, ex)
                    && joined_chosen(*left, paths, (k - 1) as nat, labels, ixs, ex),
            PlanNode::CrossProduct { left, right } =>
                path_chosen(*right, paths[k - 1], paths[k - 1].edges.len(), labels, ixs, ex)
                    && joined_chosen(*left, paths, (k - 1) as nat, labels, ixs, ex),
            _ => false,
        }
    }
}

/// Inserting a name where it belongs keeps names in strictly increasing order.
proof fn lemma_insert_name(ks: Seq<Seq<char>>, i: int, s: Seq<char>)
    requires
        crate::keyed::keys_sorted(ks),
        0 <= i <= ks.len(),
        forall|j: int| 0 <= j < i ==> crate::keyed::key_lt(#[trigger] ks[j], s),
        forall|j: int| i <= j < ks.len() ==> crate::keyed::key_lt(s, #[trigger] ks[j]),
    ensures
        crate::keyed::keys_sorted(ks.insert(i, s)),
        ks.insert(i, s).to_set() == ks.to_set().insert(s),
{
    let nk = ks.insert(i, s);
    assert forall|a: int, b: int| 0 <= a < b < nk.len() implies crate::keyed::key_lt(#[trigger] nk[a], #[trigger] nk[b]) by {
        if b < i {
            assert(crate::keyed::key_lt(ks[a], ks[b]));
        } else if b == i {
            assert(crate::keyed::key_lt(ks[a], s));
        } else if a < i {
            assert(crate::keyed::key_lt(ks[a], ks[b - 1]));
        } else if a == i {
            assert(crate::keyed::key_lt(s, ks[b - 1]));
        } else {
            assert(crate::keyed::key_lt(ks[a - 1], ks[b - 1]));
        }
    }
    assert forall|x: Seq<char>| nk.to_set().contains(x) <==> ks.to_set().insert(s).contains(x) by {
        if nk.contains(x) {
            let q = choose|q: int| 0 <= q < nk.len() && nk[q] == x;
            if q < i { assert(ks[q] == x); } else if q > i { assert(ks[q - 1] == x); }
        }
        if ks.contains(x) {
            let q = choose|q: int| 0 <= q < ks.len() && ks[q] == x;
            if q < i { assert(nk[q] == x); } else { assert(nk[q + 1] == x); }
        }
        if x == s {
            assert(nk[i] == x);
        }
    }
    assert(nk.to_set() =~= ks.to_set().insert(s));
}

/// Adds `s` to names kept in strictly increasing order, unless it is there.
pub(crate) fn insert_sorted(keys: &mut Vec<String>, s: &String)
    requires
        crate::keyed::keys_sorted(names_view(old(keys)@)),
    ensures
        crate::keyed::keys_sorted(names_view(final(keys)@)),
        names_view(final(keys)@).to_set() == names_view(old(keys)@).to_set().insert(s@),
{
    let ghost ks = names_view(keys@);
    let mut i: usize = 0;
    while i < keys.len()
        invariant
            keys == old(keys),
            ks == names_view(keys@),
            crate::keyed::keys_sorted(ks),
            i <= keys@.len(),
            forall|j: int| 0 <= j < i ==> crate::keyed::key_lt(#[trigger] ks[j], s@),
        decreases keys@.len() - i,
    {
        let c = crate::keyed::compare_text(keys[i].as_str(), s.as_str());
        if c == 0 {
            proof {
                assert(ks[i as int] == s@);
                assert(ks.to_set() =~= ks.to_set().insert(s@));
            }
            return;
        }
        if c > 0 {
            proof {
                assert forall|j: int| i <= j < ks.len() implies crate::keyed::key_lt(s@, #[trigger] ks[j]) by {
                    if j > i {
                        assert(crate::keyed::key_lt(ks[i as int], ks[j]));
                        crate::keyed::lemma_key_lt_transitive(s@, ks[i as int], ks[j]);
                    }
                }
                lemma_insert_name(ks, i as int, s@);
            }
            keys.insert(i, copy_string(s));
            assert(names_view(keys@) =~= ks.insert(i as int, s@));
            return;
        }
        i = i + 1;
    }
    proof { lemma_insert_name(ks, i as int, s@); }
    keys.push(copy_string(s));
    assert(names_view(keys@) =~= ks.insert(i as int, s@));
}

impl QueryPlanner {
    /// The plan for several paths: the first path's plan, joined with each later path's plan on
    /// the names they share (a cross product where they share none). `None` for no paths.
    pub fn plan_match_paths(
        paths: &Vec<Path>,
        labels: &StringPool,
        indices: &Vec<PropertyIndex>,
        extracted_props: &ExtractedProps,
    ) -> (r: Option<PlanNode>)
        requires
            paths_wf(paths@),
            labels.wf(),
            extracted_wf(extracted_props@),
        ensures
            match r {
                Some(p) => paths@.len() > 0 && plan_wf(p) && joined(p, paths_view(paths@), paths@.len() as nat)
                    && joined_chosen(p, paths_view(paths@), paths@.len() as nat, labels@, indices_view(indices@),
                        extracted_view(extracted_props@)),
                None => paths@.len() == 0,
            },
    {
        if paths.len() == 0 {
            return None;
        }
        let ghost pv = paths_view(paths@);
        assert(path_wf(paths@[0]));
        let mut plan = Self::plan_match_path(&paths[0], labels, indices, extracted_props);
        let mut planned_vars = Self::extract_variables(&paths[0]);
        proof {
            assert(vars_upto(pv, 0) == Set::<Seq<char>>::empty());
            assert(vars_upto(pv, 1) =~= path_vars(pv[0]));
        }
        let mut k: usize = 1;
        while k < paths.len()
            invariant
                pv == paths_view(paths@),
                paths_wf(paths@),
                labels.wf(),
                extracted_wf(extracted_props@),
                1 <= k <= paths@.len(),
                plan_wf(plan),
                joined(plan, pv, k as nat),
                joined_chosen(plan, pv, k as nat, labels@, indices_view(indices@), extracted_view(extracted_props@)),
                names_view(planned_vars@).no_duplicates(),
                names_view(planned_vars@).to_set() == vars_upto(pv, k as nat),
            decreases paths@.len() - k,
        {
            assert(path_wf(paths@[k as int]));
            let right_plan = Self::plan_match_path(&paths[k], labels, indices, extracted_props);
            let right_vars = Self::extract_variables(&paths[k]);
            let mut join_keys: Vec<String> = Vec::new();
            let ghost shared = vars_upto(pv, k as nat).intersect(path_vars(pv[k as int]));
            proof { assert(names_view(join_keys@) =~= Seq::<Seq<char>>::empty()); }
            let mut j: usize = 0;
            while j < right_vars.len()
                invariant
                    j <= right_vars@.len(),
                    crate::keyed::keys_sorted(names_view(join_keys@)),
                    names_view(planned_vars@).to_set() == vars_upto(pv, k as nat),
                    names_view(right_vars@).to_set() == path_vars(pv[k as int]),
                    names_view(join_keys@).to_set() == names_view(right_vars@).subrange(0, j as int).to_set().intersect(vars_upto(pv, k as nat)),
                decreases right_vars@.len() - j,
            {
                let mut found = false;
                let mut q: usize = 0;
                while q < planned_vars.len()
                    invariant
                        j < right_vars@.len(),
                        q <= planned_vars@.len(),
                        found == names_view(planned_vars@).subrange(0, q as int).contains(right_vars@[j as int]@),
                    decreases planned_vars@.len() - q,
                {
                    proof { crate::graph::result_set::lemma_prefix_set(names_view(planned_vars@), q as int); }
                    if crate::keyed::str_eq(planned_vars[q].as_str(), right_vars[j].as_str()) {
                        found = true;
                    }
                    proof {
                        let pre = names_view(planned_vars@).subrange(0, q as int);
                        let pre1 = names_view(planned_vars@).subrange(0, q as int + 1);
                        assert(pre1.to_set().contains(right_vars@[j as int]@) == pre1.contains(right_vars@[j as int]@));
                        assert(pre.to_set().contains(right_vars@[j as int]@) == pre.contains(right_vars@[j as int]@));
                    }
                    q = q + 1;
                }
                proof {
                    assert(names_view(planned_vars@).subrange(0, q as int) =~= names_view(planned_vars@));
                    crate::graph::result_set::lemma_prefix_set(names_view(right_vars@), j as int);
                    assert(names_view(planned_vars@).to_set().contains(right_vars@[j as int]@) == found);
                }
                if found {
                    insert_sorted(&mut join_keys, &right_vars[j]);
                }
                proof {
                    let rv = names_view(right_vars@);
                    assert(rv[j as int] == right_vars@[j as int]@);
                    assert(names_view(join_keys@).to_set() =~= rv.subrange(0, j as int + 1).to_set().intersect(vars_upto(pv, k as nat)));
                }
                j = j + 1;
            }
            proof {
                assert(names_view(right_vars@).subrange(0, j as int) =~= names_view(right_vars@));
                assert(names_view(join_keys@).to_set() =~= shared);
            }
            if join_keys.len() > 0 {
                proof {
                    assert(names_view(join_keys@)[0] == join_keys@[0]@);
                    assert(names_view(join_keys@).contains(join_keys@[0]@));
                    assert(names_view(join_keys@).to_set().contains(join_keys@[0]@));
                    assert(shared.contains(join_keys@[0]@));
                }
                plan = PlanNode::HashJoin { left: Box::new(plan), right: Box::new(right_plan), join_keys: join_keys };
            } else {
                proof {
                    assert(names_view(join_keys@) =~= Seq::<Seq<char>>::empty());
                    assert(shared =~= Set::<Seq<char>>::empty());
                }
                plan = PlanNode::CrossProduct { left: Box::new(plan), right: Box::new(right_plan) };
            }
            let mut t: usize = 0;
            while t < right_vars.len()
                invariant
                    t <= right_vars@.len(),
                    names_view(planned_vars@).no_duplicates(),
                    names_view(planned_vars@).to_set() == vars_upto(pv, k as nat).union(names_view(right_vars@).subrange(0, t as int).to_set()),
                decreases right_vars@.len() - t,
            {
                add_name(&mut planned_vars, &right_vars[t]);
                proof {
                    crate::graph::result_set::lemma_prefix_set(names_view(right_vars@), t as int);
                    assert(names_view(planned_vars@).to_set() =~= vars_upto(pv, k as nat).union(names_view(right_vars@).subrange(0, t as int + 1).to_set()));
                }
                t = t + 1;
            }
            proof {
                assert(names_view(right_vars@).subrange(0, t as int) =~= names_view(right_vars@));
                assert(vars_upto(pv, (k + 1) as nat) == vars_upto(pv, k as nat).union(path_vars(pv[k as int])));
            }
            k = k + 1;
        }
        Some(plan)
    }
}

/// The clauses with each `CALL { ... }` replaced by the clauses it holds, in order.
pub open spec fn flat_clauses(cs: Seq<crate::parser::ClauseV>) -> Seq<crate::parser::ClauseV>
    decreases cs,
{
    if cs.len() == 0 {
        Seq::empty()
    } else {
        let last = cs[cs.len() - 1];
        let rest = flat_clauses(cs.subrange(0, cs.len() - 1));
        match last {
            crate::parser::ClauseV::Call(inner) => rest + flat_clauses(inner),
            _ => rest.push(last),
        }
    }
}

/// The step carries out the clause.
pub open spec fn step_for(s: ExecutionStep, c: crate::parser::ClauseV, labels: Seq<Seq<char>>, ixs: Seq<IndexV>) -> bool {
    match (s, c) {
        (ExecutionStep::Create(ps), crate::parser::ClauseV::Create(pv)) => paths_view(ps@) == pv,
        (ExecutionStep::Match(plan, ps, cond, limit), crate::parser::ClauseV::Match(pv, cv)) =>
            paths_view(ps@) == pv && opt_cond_view(cond) == cv && limit is None
                && match plan {
                    Some(p) => pv.len() > 0 && joined(p, pv, pv.len())
                        && joined_chosen(p, pv, pv.len(), labels, ixs, match cv {
                            Some(c) => extract_spec(c, Map::empty()),
                            None => Map::empty(),
                        }),
                    None => pv.len() == 0,
                },
        (ExecutionStep::Merge(pps), crate::parser::ClauseV::Merge(pv)) =>
            pps@.len() == pv.len() && forall|i: int| 0 <= i < pv.len() ==>
                (#[trigger] pps@[i]).1@ == pv[i] && (pps@[i].0 matches Some(p) && joined(p, seq![pv[i]], 1)
                    && joined_chosen(p, seq![pv[i]], 1, labels, ixs, Map::empty())),
        (ExecutionStep::SetProperty(v, k, val), crate::parser::ClauseV::SetProperty(v2, k2, val2)) =>
            v@ == v2 && k@ == k2 && val@ == val2,
        (ExecutionStep::CreateIndex { label, property, index_type }, crate::parser::ClauseV::CreateIndex { label: l2, property: p2 }) =>
            label@ == l2 && property@ == p2 && index_type == IndexType::Hash,
        (ExecutionStep::Return(its, o, l), crate::parser::ClauseV::Return(iv, ov, lv)) =>
            items_view(its@) == iv && opt_order_view(o) == ov && l == lv,
        (ExecutionStep::With(its, o, l), crate::parser::ClauseV::With(iv, ov)) =>
            items_view(its@) == iv && opt_order_view(o) == ov && l is None,
        (ExecutionStep::Unwind(its), crate::parser::ClauseV::Unwind(iv)) => items_view(its@) == iv,
        (ExecutionStep::Delete(ns), crate::parser::ClauseV::Delete(nv)) => names_view(ns@) == nv,
        _ => false,
    }
}

impl QueryPlanner {
    /// Appends the steps that carry out the clauses, in order; the clauses of a `CALL { ... }`
    /// are carried out in its place.
    fn plan_clauses(cs: &Vec<Clause>, labels: &StringPool, indices: &Vec<PropertyIndex>, steps: &mut Vec<ExecutionStep>)
        requires
            clauses_wf(cs@),
            labels.wf(),
            steps_wf_all(old(steps)@),
        ensures
            steps_wf_all(final(steps)@),
            final(steps)@.len() == old(steps)@.len() + flat_clauses(clauses_view(cs@)).len(),
            forall|i: int| 0 <= i < old(steps)@.len() ==> #[trigger] final(steps)@[i] == old(steps)@[i],
            forall|i: int| 0 <= i < flat_clauses(clauses_view(cs@)).len() ==>
                #[trigger] step_for(final(steps)@[old(steps)@.len() + i], flat_clauses(clauses_view(cs@))[i], labels@, indices_view(indices@)),
        decreases cs@,
    {
        proof { lemma_clauses_wf(cs@); crate::parser::lemma_clauses_view(cs@); }
        let ghost start = steps@.len();
        let mut k: usize = 0;
        while k < cs.len()
            invariant
                clauses_wf(cs@),
                forall|i: int| 0 <= i < cs@.len() ==> #[trigger] clause_wf(cs@[i]),
                clauses_view(cs@).len() == cs@.len(),
                forall|i: int| 0 <= i < cs@.len() ==> #[trigger] clauses_view(cs@)[i] == cs@[i]@,
                labels.wf(),
                k <= cs@.len(),
                steps_wf_all(steps@),
                start == old(steps)@.len(),
                steps@.len() == start + flat_clauses(clauses_view(cs@).subrange(0, k as int)).len(),
                forall|i: int| 0 <= i < start ==> #[trigger] steps@[i] == old(steps)@[i],
                forall|i: int| 0 <= i < flat_clauses(clauses_view(cs@).subrange(0, k as int)).len() ==>
                    #[trigger] step_for(steps@[start + i], flat_clauses(clauses_view(cs@).subrange(0, k as int))[i], labels@, indices_view(indices@)),
            decreases cs@.len() - k,
        {
            let ghost cv = clauses_view(cs@);
            let ghost before = steps@;
            let ghost prev_flat = flat_clauses(cv.subrange(0, k as int));
            proof {
                assert(cv.subrange(0, k as int + 1).subrange(0, k as int) =~= cv.subrange(0, k as int));
                assert(cv.subrange(0, k as int + 1)[k as int] == cs@[k as int]@);
                assert(clause_wf(cs@[k as int]));
            }
            match &cs[k] {
                Clause::Call(inner) => {
                    assert(decreases_to!(cs@ => cs@[k as int]));
                    Self::plan_clauses(inner, labels, indices, steps);
                    proof {
                        let nf = flat_clauses(cv.subrange(0, k as int + 1));
                        let fi = flat_clauses(clauses_view(inner@));
                        assert(nf == prev_flat + fi);
                        assert forall|i: int| 0 <= i < nf.len() implies #[trigger] step_for(steps@[start + i], nf[i], labels@, indices_view(indices@)) by {
                            if i < prev_flat.len() {
                                assert(steps@[start + i] == before[start + i]);
                            } else {
                                assert(nf[i] == fi[i - prev_flat.len()]);
                                assert(start + i == before.len() + (i - prev_flat.len()));
                            }
                        }
                        assert forall|i: int| 0 <= i < start implies #[trigger] steps@[i] == old(steps)@[i] by {
                            assert(steps@[i] == before[i]);
                        }
                    }
                },
                _ => {
                    let step = Self::plan_clause(&cs[k], labels, indices);
                    steps.push(step);
                    proof {
                        let nf = flat_clauses(cv.subrange(0, k as int + 1));
                        assert(nf == prev_flat.push(cs@[k as int]@));
                        assert forall|i: int| 0 <= i < nf.len() implies #[trigger] step_for(steps@[start + i], nf[i], labels@, indices_view(indices@)) by {
                            if i < prev_flat.len() {
                                assert(steps@[start + i] == before[start + i]);
                            }
                        }
                        assert forall|i: int| 0 <= i < steps@.len() implies #[trigger] step_wf(steps@[i]) by {
                            if i < before.len() {
                                assert(steps@[i] == before[i]);
                            }
                        }
                    }
                },
            }
            k = k + 1;
        }
        proof {
            assert(clauses_view(cs@).subrange(0, cs@.len() as int) =~= clauses_view(cs@));
        }
    }

    /// The step for a clause other than `CALL`.
    fn plan_clause(c: &Clause, labels: &StringPool, indices: &Vec<PropertyIndex>) -> (r: ExecutionStep)
        requires
            clause_wf(*c),
            !(c matches Clause::Call(_)),
            labels.wf(),
        ensures
            step_wf(r),
            step_for(r, c@, labels@, indices_view(indices@)),
    {
        match c {
            Clause::Create(paths) => ExecutionStep::Create(copy_paths(paths)),
            Clause::Match(paths, condition) => {
                let mut extracted_props: ExtractedProps = Vec::new();
                proof {
                    assert(extracted_view(extracted_props@) =~= Map::<Seq<char>, Map<Seq<char>, PropV>>::empty());
                }
                match condition {
                    Some(cond) => Self::extract_props_from_condition(cond, &mut extracted_props),
                    None => {},
                }
                assert(extracted_view(extracted_props@) == match c@ {
                    crate::parser::ClauseV::Match(_, Some(cv)) => extract_spec(cv, Map::empty()),
                    _ => Map::<Seq<char>, Map<Seq<char>, PropV>>::empty(),
                });
                let plan = Self::plan_match_paths(paths, labels, indices, &extracted_props);
                let cond_copy = match condition {
                    Some(cond) => Some(cond.copy()),
                    None => None,
                };
                ExecutionStep::Match(plan, copy_paths(paths), cond_copy, None)
            },
            Clause::Merge(paths) => {
                let mut planned: Vec<(Option<PlanNode>, Path)> = Vec::new();
                let empty: ExtractedProps = Vec::new();
                assert(extracted_view(empty@) =~= Map::<Seq<char>, Map<Seq<char>, PropV>>::empty());
                let mut i: usize = 0;
                while i < paths.len()
                    invariant
                        paths_wf(paths@),
                        labels.wf(),
                        extracted_wf(empty@),
                        extracted_view(empty@) == Map::<Seq<char>, Map<Seq<char>, PropV>>::empty(),
                        i <= paths@.len(),
                        planned@.len() == i,
                        forall|j: int| 0 <= j < i ==> path_wf(#[trigger] planned@[j].1)
                            && (planned@[j].0 matches Some(pl) ==> plan_wf(pl))
                            && planned@[j].1@ == paths_view(paths@)[j]
                            && (planned@[j].0 matches Some(p) && joined(p, seq![paths_view(paths@)[j]], 1)
                                && joined_chosen(p, seq![paths_view(paths@)[j]], 1, labels@, indices_view(indices@), Map::empty())),
                    decreases paths@.len() - i,
                {
                    assert(path_wf(paths@[i as int]));
                    let one = vec![paths[i].copy()];
                    proof {
                        assert(paths_wf(one@));
                        assert(paths_view(one@) =~= seq![paths_view(paths@)[i as int]]);
                    }
                    let plan = Self::plan_match_paths(&one, labels, indices, &empty);
                    let ghost before = planned@;
                    planned.push((plan, paths[i].copy()));
                    proof {
                        assert forall|j: int| 0 <= j < i + 1 implies path_wf(#[trigger] planned@[j].1)
                            && (planned@[j].0 matches Some(pl) ==> plan_wf(pl))
                            && planned@[j].1@ == paths_view(paths@)[j]
                            && (planned@[j].0 matches Some(p) && joined(p, seq![paths_view(paths@)[j]], 1)
                                && joined_chosen(p, seq![paths_view(paths@)[j]], 1, labels@, indices_view(indices@), Map::empty())) by {
                            if j < i {
                                assert(planned@[j] == before[j]);
                            }
                        }
                    }
                    i = i + 1;
                }
                ExecutionStep::Merge(planned)
            },
            Clause::SetProperty(v, k, val) => ExecutionStep::SetProperty(copy_string(v), copy_string(k), val.copy()),
            Clause::CreateIndex { label, property } =>
                ExecutionStep::CreateIndex { label: copy_string(label), property: copy_string(property), index_type: IndexType::Hash },
            Clause::Return(its, o, l) => {
                let oc = match o {
                    Some(os) => Some(copy_order(os)),
                    None => None,
                };
                ExecutionStep::Return(copy_items(its), oc, *l)
            },
            Clause::With(its, o) => {
                let oc = match o {
                    Some(os) => Some(copy_order(os)),
                    None => None,
                };
                ExecutionStep::With(copy_items(its), oc, None)
            },
            Clause::Unwind(its) => ExecutionStep::Unwind(copy_items(its)),
            Clause::Delete(ns) => ExecutionStep::Delete(copy_names(ns)),
            Clause::Call(_) => ExecutionStep::Delete(Vec::new()),
        }
    }

    /// The plan of a query: one step per clause, in order (the clauses of a `CALL { ... }` in its
    /// place), and the query's `PROFILE` flag.
    pub fn plan_query(query: Query, labels: &StringPool, indices: &Vec<PropertyIndex>) -> (r: QueryPlan)
        requires
            clauses_wf(query.clauses@),
            labels.wf(),
        ensures
            r.profile == query.profile,
            steps_wf_all(r.steps@),
            r.steps@.len() == flat_clauses(clauses_view(query.clauses@)).len(),
            forall|i: int| 0 <= i < r.steps@.len() ==> #[trigger] step_for(r.steps@[i], flat_clauses(clauses_view(query.clauses@))[i], labels@, indices_view(indices@)),
    {
        let mut steps: Vec<ExecutionStep> = Vec::new();
        Self::plan_clauses(&query.clauses, labels, indices, &mut steps);
        proof {
            assert forall|i: int| 0 <= i < steps@.len() implies #[trigger] step_for(steps@[i], flat_clauses(clauses_view(query.clauses@))[i], labels@, indices_view(indices@)) by {
                assert(steps@[0 + i] == steps@[i]);
            }
        }
        QueryPlan { profile: query.profile, steps: steps }
    }
}

} // verus!
