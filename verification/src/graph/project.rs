use vstd::prelude::*;
use crate::graph::Graph;
use crate::graph::element::{elems_view, ElemV, GraphElement};
use crate::graph::functions::{call_function, call_spec, lemma_call_not_null};
use crate::node::Node;
use crate::edge::Edge;
use crate::graph::eval::{eval_args_spec, eval_spec, order_sign, order_sign_exec, EvalV, EvalValue};
use crate::graph::matching::RowV;
use crate::graph::result_set::{apply_bindings, ResultSet, Row};
use crate::parser::{items_view, opt_str_view, order_view, ItemV, OrderItem, OrderItemV, ProjectionItem};
use crate::property::{num_of_nat, Number};
use crate::text::{append, copy_string, own};

verus! {

// ---------------------------------------------------------------------------------------------
// The names projected items are bound under.

/// The name an item's value is bound under: the variable, the alias, `func(var)` for an
/// aggregate and `func()` for a function when they have no alias; none for `*`.
pub open spec fn item_key(it: ItemV) -> Option<Seq<char>> {
    match it {
        ItemV::Star => None,
        ItemV::Variable(v) => Some(v),
        ItemV::AliasedVariable(_, a) => Some(a),
        ItemV::Aggregate { func, var, alias } => match alias {
            Some(a) => Some(a),
            None => Some(func + "("@ + var + ")"@),
        },
        ItemV::Function { func, alias, .. } => match alias {
            Some(a) => Some(a),
            None => Some(func + "()"@),
        },
    }
}

/// The name an item's value is bound under (see `item_key`).
pub fn item_key_exec(it: &ProjectionItem) -> (r: Option<String>)
    ensures
        opt_str_view(r) == item_key(it@),
{
    match it {
        ProjectionItem::Star => None,
        ProjectionItem::Variable(v) => Some(copy_string(v)),
        ProjectionItem::AliasedVariable(_, a) => Some(copy_string(a)),
        ProjectionItem::Aggregate { func, var, alias } => match alias {
            Some(a) => Some(copy_string(a)),
            None => {
                let mut s = copy_string(func);
                append(&mut s, "(");
                append(&mut s, var.as_str());
                append(&mut s, ")");
                Some(s)
            },
        },
        ProjectionItem::Function { func, alias, .. } => match alias {
            Some(a) => Some(copy_string(a)),
            None => {
                let mut s = copy_string(func);
                append(&mut s, "()");
                Some(s)
            },
        },
    }
}

// ---------------------------------------------------------------------------------------------
// `*`.

/// The name is one the engine gave an unnamed pattern element.
pub open spec fn is_anon(name: Seq<char>) -> bool {
    name.len() >= 6 && name.subrange(0, 6) == "_anon_"@
}

/// The name starts with `_anon_`.
fn is_anon_exec(name: &str) -> (r: bool)
    ensures
        r == is_anon(name@),
{
    proof { reveal_strlit("_anon_"); }
    let cs = crate::text::chars_of(name);
    if cs.len() < 6 {
        return false;
    }
    let r = cs[0] == '_' && cs[1] == 'a' && cs[2] == 'n' && cs[3] == 'o' && cs[4] == 'n' && cs[5] == '_';
    assert("_anon_"@ =~= seq!['_', 'a', 'n', 'o', 'n', '_']);
    if r {
        assert(cs@.subrange(0, 6) =~= "_anon_"@);
    } else {
        assert(cs@.subrange(0, 6) != "_anon_"@) by {
            if cs@.subrange(0, 6) == "_anon_"@ {
                assert(cs@.subrange(0, 6)[0] == '_' && cs@.subrange(0, 6)[1] == 'a' && cs@.subrange(0, 6)[2] == 'n');
                assert(cs@.subrange(0, 6)[3] == 'o' && cs@.subrange(0, 6)[4] == 'n' && cs@.subrange(0, 6)[5] == '_');
            }
        }
    }
    r
}

/// The items `*` stands for: a variable item for each column not named by the engine, in
/// increasing order of names.
pub open spec fn star_items(columns: Seq<Seq<char>>) -> Seq<ItemV> {
    columns.filter(|c: Seq<char>| !is_anon(c)).map_values(|c: Seq<char>| ItemV::Variable(c))
}

/// The items as projected: a lone `*` replaced by `star_items`.
pub open spec fn expanded_items(items: Seq<ItemV>, columns: Seq<Seq<char>>) -> Seq<ItemV> {
    if items.len() == 1 && items[0] is Star { star_items(columns) } else { items }
}

/// The items as projected for the rows (see `expanded_items`).
pub fn expand_items(items: &Vec<ProjectionItem>, rs: &ResultSet) -> (r: Vec<ProjectionItem>)
    requires
        rs.wf(),
    ensures
        items_view(r@) == expanded_items(items_view(items@), rs@.columns),
{
    if items.len() == 1 && matches!(items[0], ProjectionItem::Star) {
        let cols = rs.column_names();
        let ghost cs = rs@.columns;
        let ghost keep = |c: Seq<char>| !is_anon(c);
        let mut out: Vec<ProjectionItem> = Vec::new();
        let mut i: usize = 0;
        while i < cols.len()
            invariant
                cols@.map_values(|s: String| s@) == cs,
                keep == (|c: Seq<char>| !is_anon(c)),
                i <= cols@.len(),
                items_view(out@) == cs.subrange(0, i as int).filter(keep).map_values(|c: Seq<char>| ItemV::Variable(c)),
            decreases cols@.len() - i,
        {
            proof {
                assert(cs[i as int] == cols@[i as int]@);
                assert(cs.subrange(0, i as int + 1) =~= cs.subrange(0, i as int).push(cs[i as int]));
                cs.subrange(0, i as int).lemma_filter_push(cs[i as int], keep);
            }
            if !is_anon_exec(cols[i].as_str()) {
                let ghost before = out@;
                out.push(ProjectionItem::Variable(copy_string(&cols[i])));
                assert(items_view(out@) =~= items_view(before).push(ItemV::Variable(cs[i as int])));
                assert(items_view(out@) =~= cs.subrange(0, i as int + 1).filter(keep).map_values(|c: Seq<char>| ItemV::Variable(c)));
            } else {
                assert(items_view(out@) =~= cs.subrange(0, i as int + 1).filter(keep).map_values(|c: Seq<char>| ItemV::Variable(c)));
            }
            i = i + 1;
        }
        assert(cs.subrange(0, cols@.len() as int) =~= cs);
        out
    } else {
        crate::parser::copy::copy_items(items)
    }
}

// ---------------------------------------------------------------------------------------------
// Projection without aggregates.

/// What an item binds for a row: a variable (under its name or alias) when the row binds it; a
/// function call what it gives on its arguments' elements for the row, when it gives anything
/// (see `call_spec`); nothing otherwise.
pub open spec fn simple_item(nodes: Seq<Node>, edges: Seq<Edge>, row: RowV, it: ItemV) -> Seq<(Seq<char>, ElemV)> {
    match it {
        ItemV::Variable(v) => if row.contains_key(v) { seq![(v, row[v])] } else { Seq::empty() },
        ItemV::AliasedVariable(v, a) => if row.contains_key(v) { seq![(a, row[v])] } else { Seq::empty() },
        ItemV::Function { func, args, .. } => match call_spec(func, eval_args_spec(nodes, edges, row, args)) {
            Some(x) => seq![(item_key(it).unwrap(), x)],
            None => Seq::empty(),
        },
        _ => Seq::empty(),
    }
}

/// What the items bind for a row, item by item.
pub open spec fn simple_bindings(nodes: Seq<Node>, edges: Seq<Edge>, row: RowV, items: Seq<ItemV>) -> Seq<(Seq<char>, ElemV)>
    decreases items.len(),
{
    if items.len() == 0 {
        Seq::empty()
    } else {
        simple_bindings(nodes, edges, row, items.drop_last()) + simple_item(nodes, edges, row, items.last())
    }
}

/// The projected row.
pub open spec fn simple_row(nodes: Seq<Node>, edges: Seq<Edge>, row: RowV, items: Seq<ItemV>) -> RowV {
    apply_bindings(Map::empty(), simple_bindings(nodes, edges, row, items))
}

/// Binding more pairs applies them after the others.
pub proof fn lemma_apply_bindings_concat(m: RowV, a: Seq<(Seq<char>, ElemV)>, b: Seq<(Seq<char>, ElemV)>)
    ensures
        apply_bindings(m, a + b) == apply_bindings(apply_bindings(m, a), b),
    decreases b.len(),
{
    if b.len() == 0 {
        assert(a + b =~= a);
    } else {
        lemma_apply_bindings_concat(m, a, b.drop_last());
        assert((a + b).drop_last() =~= a + b.drop_last());
        assert((a + b).last() == b.last());
    }
}

/// Binding one pair.
pub proof fn lemma_apply_one(m: RowV, k: Seq<char>, v: ElemV)
    ensures
        apply_bindings(m, seq![(k, v)]) == if v == ElemV::Null { m.remove(k) } else { m.insert(k, v) },
{
    let bs = seq![(k, v)];
    assert(bs.drop_last() =~= Seq::<(Seq<char>, ElemV)>::empty());
    assert(bs.last() == (k, v));
    assert(apply_bindings(m, bs.drop_last()) == m);
}

/// Binds in `row` what item `it` binds for row `i` of `rs` (see `simple_item`).
fn bind_simple_item(g: &Graph, row: &mut Row, rs: &ResultSet, i: usize, it: &ProjectionItem)
    requires
        g.wf(),
        old(row).wf(),
        rs.wf(),
        i < rs@.rows.len(),
    ensures
        final(row).wf(),
        final(row)@ == apply_bindings(old(row)@, simple_item(g.nodes@, g.edges@, rs@.rows[i as int], it@)),
{
    let src = rs.row(i);
    proof { src.lemma_no_null(); }
    match it {
        ProjectionItem::Variable(v) => match src.get(v.as_str()) {
            Some(e) => {
                assert(src@.contains_key(v@));
                row.set(v.as_str(), e.copy());
                proof { lemma_apply_one(old(row)@, v@, src@[v@]); }
            },
            None => {},
        },
        ProjectionItem::AliasedVariable(v, a) => match src.get(v.as_str()) {
            Some(e) => {
                row.set(a.as_str(), e.copy());
                proof { lemma_apply_one(old(row)@, a@, src@[v@]); }
            },
            None => {},
        },
        ProjectionItem::Function { func, args, .. } => {
            let vals = g.evaluate_arguments(args, rs, i);
            match call_function(func.as_str(), &vals) {
                Some(x) => {
                    let k = item_key_exec(it).unwrap();
                    let ghost xv = x@;
                    proof { lemma_call_not_null(func@, elems_view(vals@)); }
                    row.set(k.as_str(), x);
                    proof { lemma_apply_one(old(row)@, k@, xv); }
                },
                None => {},
            }
        },
        _ => {},
    }
    proof {
        if simple_item(g.nodes@, g.edges@, src@, it@).len() == 0 {
            assert(simple_item(g.nodes@, g.edges@, src@, it@) =~= Seq::<(Seq<char>, ElemV)>::empty());
        }
    }
}

/// The row projected by the items from row `i` of `rs` (see `simple_row`).
fn project_row(g: &Graph, rs: &ResultSet, i: usize, items: &Vec<ProjectionItem>) -> (r: Row)
    requires
        g.wf(),
        rs.wf(),
        i < rs@.rows.len(),
    ensures
        r.wf(),
        r@ == simple_row(g.nodes@, g.edges@, rs@.rows[i as int], items_view(items@)),
{
    let ghost src = rs@.rows[i as int];
    let ghost iv = items_view(items@);
    let mut row = Row::new();
    let mut j: usize = 0;
    while j < items.len()
        invariant
            g.wf(),
            rs.wf(),
            i < rs@.rows.len(),
            src == rs@.rows[i as int],
            row.wf(),
            iv == items_view(items@),
            j <= items@.len(),
            row@ == apply_bindings(Map::empty(), simple_bindings(g.nodes@, g.edges@, src, iv.subrange(0, j as int))),
        decreases items@.len() - j,
    {
        bind_simple_item(g, &mut row, rs, i, &items[j]);
        proof {
            assert(iv.subrange(0, j as int + 1).drop_last() =~= iv.subrange(0, j as int));
            assert(iv.subrange(0, j as int + 1).last() == iv[j as int]);
            lemma_apply_bindings_concat(Map::empty(), simple_bindings(g.nodes@, g.edges@, src, iv.subrange(0, j as int)),
                simple_item(g.nodes@, g.edges@, src, iv[j as int]));
        }
        j = j + 1;
    }
    assert(iv.subrange(0, items@.len() as int) =~= iv);
    row
}

/// The rows projected by the items, row by row.
pub fn project_simple(g: &Graph, items: &Vec<ProjectionItem>, rs: &ResultSet) -> (out: ResultSet)
    requires
        g.wf(),
        rs.wf(),
    ensures
        out.wf(),
        out@.rows == rs@.rows.map_values(|r: RowV| simple_row(g.nodes@, g.edges@, r, items_view(items@))),
{
    let ghost f = |r: RowV| simple_row(g.nodes@, g.edges@, r, items_view(items@));
    let mut out = ResultSet::new();
    let n = rs.rows();
    let mut i: usize = 0;
    while i < n
        invariant
            g.wf(),
            rs.wf(),
            out.wf(),
            n == rs@.rows.len(),
            f == (|r: RowV| simple_row(g.nodes@, g.edges@, r, items_view(items@))),
            i <= n,
            out@.rows == rs@.rows.subrange(0, i as int).map_values(f),
        decreases n - i,
    {
        let row = project_row(g, rs, i, items);
        out.push_row(&row);
        assert(rs@.rows.subrange(0, i as int + 1).map_values(f) =~= rs@.rows.subrange(0, i as int).map_values(f).push(row@));
        i = i + 1;
    }
    assert(rs@.rows.subrange(0, n as int) =~= rs@.rows);
    out
}

// ---------------------------------------------------------------------------------------------
// Projection with aggregates.

/// The item is a grouping key: a variable, aliased or not.
pub open spec fn is_grouping(it: ItemV) -> bool {
    it is Variable || it is AliasedVariable
}

/// The variable a grouping item reads.
pub open spec fn item_var(it: ItemV) -> Seq<char> {
    match it {
        ItemV::Variable(v) => v,
        ItemV::AliasedVariable(v, _) => v,
        _ => Seq::empty(),
    }
}

/// What the row binds `v` to, if anything.
pub open spec fn lookup(row: RowV, v: Seq<char>) -> Option<ElemV> {
    if row.contains_key(v) { Some(row[v]) } else { None }
}

/// The grouping key of a row: what it binds each grouping item's variable to, in order.
pub open spec fn group_key(row: RowV, items: Seq<ItemV>) -> Seq<Option<ElemV>> {
    items.filter(|it: ItemV| is_grouping(it)).map_values(|it: ItemV| lookup(row, item_var(it)))
}

/// The grouping keys of the rows.
pub open spec fn row_keys(rows: Seq<RowV>, items: Seq<ItemV>) -> Seq<Seq<Option<ElemV>>> {
    rows.map_values(|r: RowV| group_key(r, items))
}

/// Row `i` is the first with its key.
pub open spec fn is_leader(ks: Seq<Seq<Option<ElemV>>>, i: int) -> bool {
    forall|j: int| 0 <= j < i ==> ks[j] != ks[i]
}

/// The positions `0..n`.
pub open spec fn positions(n: nat) -> Seq<int> {
    Seq::new(n, |i: int| i)
}

/// The first row of each group, in order.
pub open spec fn leaders(ks: Seq<Seq<Option<ElemV>>>) -> Seq<int> {
    positions(ks.len()).filter(|i: int| is_leader(ks, i))
}

/// The rows with the same key as row `i`, in order.
pub open spec fn members(ks: Seq<Seq<Option<ElemV>>>, i: int) -> Seq<int> {
    positions(ks.len()).filter(|j: int| ks[j] == ks[i])
}

/// What the member rows bind `var` to, in order, where they bind it.
pub open spec fn bound_vals(rows: Seq<RowV>, ms: Seq<int>, var: Seq<char>) -> Seq<ElemV> {
    ms.filter(|j: int| rows[j].contains_key(var)).map_values(|j: int| rows[j][var])
}

/// The values, each kept at its first occurrence only.
pub open spec fn dedup(s: Seq<ElemV>) -> Seq<ElemV>
    decreases s.len(),
{
    if s.len() == 0 {
        Seq::empty()
    } else {
        let d = dedup(s.drop_last());
        if d.contains(s.last()) { d } else { d.push(s.last()) }
    }
}

/// What an item binds for the group led by row `i` with member rows `ms`: a variable as the
/// leader binds it; `COUNT` of all rows (`*`) or of those binding the variable; `COLLECT` of what
/// they bind it to, and `UNIQUE` of that without repeats; a function call what it gives on its
/// arguments' elements for the leader, when it gives anything (see `call_spec`).
pub open spec fn group_item(nodes: Seq<Node>, edges: Seq<Edge>, rows: Seq<RowV>, ms: Seq<int>, i: int, it: ItemV) -> Seq<(Seq<char>, ElemV)> {
    match it {
        ItemV::Variable(v) => if rows[i].contains_key(v) { seq![(v, rows[i][v])] } else { Seq::empty() },
        ItemV::AliasedVariable(v, a) => if rows[i].contains_key(v) { seq![(a, rows[i][v])] } else { Seq::empty() },
        ItemV::Aggregate { func, var, .. } => {
            let key = item_key(it).unwrap();
            if func == "COUNT"@ {
                let c = if var == "*"@ { ms.len() } else { bound_vals(rows, ms, var).len() };
                seq![(key, ElemV::Number(num_of_nat(c)))]
            } else if func == "COLLECT"@ {
                seq![(key, ElemV::List(bound_vals(rows, ms, var)))]
            } else if func == "UNIQUE"@ {
                seq![(key, ElemV::List(dedup(bound_vals(rows, ms, var))))]
            } else {
                Seq::empty()
            }
        },
        ItemV::Function { func, args, .. } => match call_spec(func, eval_args_spec(nodes, edges, rows[i], args)) {
            Some(x) => seq![(item_key(it).unwrap(), x)],
            None => Seq::empty(),
        },
        ItemV::Star => Seq::empty(),
    }
}

/// What the items bind for a group, item by item.
pub open spec fn group_bindings(nodes: Seq<Node>, edges: Seq<Edge>, rows: Seq<RowV>, ms: Seq<int>, i: int, items: Seq<ItemV>)
    -> Seq<(Seq<char>, ElemV)>
    decreases items.len(),
{
    if items.len() == 0 {
        Seq::empty()
    } else {
        group_bindings(nodes, edges, rows, ms, i, items.drop_last()) + group_item(nodes, edges, rows, ms, i, items.last())
    }
}

/// The row of the group led by row `i`.
pub open spec fn group_row(nodes: Seq<Node>, edges: Seq<Edge>, rows: Seq<RowV>, items: Seq<ItemV>, i: int) -> RowV {
    let ks = row_keys(rows, items);
    apply_bindings(Map::empty(), group_bindings(nodes, edges, rows, members(ks, i), i, items))
}

/// One row per group of rows with equal keys, in the order of their first rows.
pub open spec fn group_rows(nodes: Seq<Node>, edges: Seq<Edge>, rows: Seq<RowV>, items: Seq<ItemV>) -> Seq<RowV> {
    leaders(row_keys(rows, items)).map_values(|i: int| group_row(nodes, edges, rows, items, i))
}

/// The view of a key.
pub open spec fn key_view(k: Seq<Option<GraphElement>>) -> Seq<Option<ElemV>> {
    k.map_values(|o: Option<GraphElement>| match o { Some(e) => Some(e@), None => None })
}

/// The grouping key of row `i` (see `group_key`).
fn key_of_row(items: &Vec<ProjectionItem>, row: &Row) -> (r: Vec<Option<GraphElement>>)
    requires
        row.wf(),
    ensures
        key_view(r@) == group_key(row@, items_view(items@)),
{
    let ghost iv = items_view(items@);
    let ghost p = |it: ItemV| is_grouping(it);
    let ghost f = |it: ItemV| lookup(row@, item_var(it));
    let mut out: Vec<Option<GraphElement>> = Vec::new();
    let mut j: usize = 0;
    while j < items.len()
        invariant
            row.wf(),
            iv == items_view(items@),
            p == (|it: ItemV| is_grouping(it)),
            f == (|it: ItemV| lookup(row@, item_var(it))),
            j <= items@.len(),
            key_view(out@) == iv.subrange(0, j as int).filter(p).map_values(f),
        decreases items@.len() - j,
    {
        proof {
            assert(iv.subrange(0, j as int + 1) =~= iv.subrange(0, j as int).push(iv[j as int]));
            iv.subrange(0, j as int).lemma_filter_push(iv[j as int], p);
        }
        let ghost before = out@;
        match &items[j] {
            ProjectionItem::Variable(v) | ProjectionItem::AliasedVariable(v, _) => {
                let val = match row.get(v.as_str()) {
                    Some(e) => Some(e.copy()),
                    None => None,
                };
                out.push(val);
                assert(key_view(out@) =~= key_view(before).push(f(iv[j as int])));
            },
            _ => {},
        }
        j = j + 1;
    }
    assert(iv.subrange(0, items@.len() as int) =~= iv);
    out
}

/// The keys are equal.
fn keys_equal(a: &Vec<Option<GraphElement>>, b: &Vec<Option<GraphElement>>) -> (r: bool)
    ensures
        r == (key_view(a@) == key_view(b@)),
{
    if a.len() != b.len() {
        assert(key_view(a@).len() != key_view(b@).len());
        return false;
    }
    let mut i: usize = 0;
    while i < a.len()
        invariant
            a@.len() == b@.len(),
            i <= a@.len(),
            forall|j: int| 0 <= j < i ==> key_view(a@)[j] == key_view(b@)[j],
        decreases a@.len() - i,
    {
        let same = match (&a[i], &b[i]) {
            (Some(x), Some(y)) => x.equals(y),
            (None, None) => true,
            _ => false,
        };
        if !same {
            assert(key_view(a@)[i as int] != key_view(b@)[i as int]);
            return false;
        }
        i = i + 1;
    }
    assert(key_view(a@) =~= key_view(b@));
    true
}

/// The positions as integers.
pub open spec fn ints(ms: Seq<usize>) -> Seq<int> {
    ms.map_values(|j: usize| j as int)
}

/// What the member rows bind `var` to (see `bound_vals`).
fn bound_values(rs: &ResultSet, ms: &Vec<usize>, var: &str) -> (r: Vec<GraphElement>)
    requires
        rs.wf(),
        forall|q: int| 0 <= q < ms@.len() ==> #[trigger] ms@[q] < rs@.rows.len(),
    ensures
        crate::graph::element::elems_view(r@) == bound_vals(rs@.rows, ints(ms@), var@),
{
    let ghost rows = rs@.rows;
    let ghost is = ints(ms@);
    let ghost p = |j: int| rows[j].contains_key(var@);
    let ghost f = |j: int| rows[j][var@];
    let mut out: Vec<GraphElement> = Vec::new();
    let mut q: usize = 0;
    while q < ms.len()
        invariant
            rs.wf(),
            rows == rs@.rows,
            is == ints(ms@),
            forall|q: int| 0 <= q < ms@.len() ==> #[trigger] ms@[q] < rs@.rows.len(),
            p == (|j: int| rows[j].contains_key(var@)),
            f == (|j: int| rows[j][var@]),
            q <= ms@.len(),
            crate::graph::element::elems_view(out@) == is.subrange(0, q as int).filter(p).map_values(f),
        decreases ms@.len() - q,
    {
        proof { crate::graph::matching::lemma_filter_map_step(is, p, f, q as int); }
        let ghost before = out@;
        match rs.get(ms[q], var) {
            Some(e) => {
                out.push(e.copy());
                proof {
                    assert(out@.subrange(0, out@.len() - 1) =~= before);
                    assert(crate::graph::element::elems_view(out@) =~= crate::graph::element::elems_view(before).push(f(is[q as int])));
                }
            },
            None => {
                assert(is.subrange(0, q as int).filter(p).map_values(f) + Seq::<ElemV>::empty() =~= is.subrange(0, q as int).filter(p).map_values(f));
            },
        }
        q = q + 1;
    }
    assert(is.subrange(0, ms@.len() as int) =~= is);
    out
}

/// The values, each kept at its first occurrence only (see `dedup`).
fn dedup_values(vals: &Vec<GraphElement>) -> (r: Vec<GraphElement>)
    ensures
        crate::graph::element::elems_view(r@) == dedup(crate::graph::element::elems_view(vals@)),
{
    let ghost vv = crate::graph::element::elems_view(vals@);
    proof { crate::graph::element::lemma_elems_view(vals@); }
    let mut out: Vec<GraphElement> = Vec::new();
    let mut i: usize = 0;
    while i < vals.len()
        invariant
            vv == crate::graph::element::elems_view(vals@),
            vv.len() == vals@.len(),
            forall|q: int| 0 <= q < vals@.len() ==> #[trigger] vv[q] == vals@[q]@,
            i <= vals@.len(),
            crate::graph::element::elems_view(out@) == dedup(vv.subrange(0, i as int)),
        decreases vals@.len() - i,
    {
        let ghost d = crate::graph::element::elems_view(out@);
        proof {
            crate::graph::element::lemma_elems_view(out@);
            assert(vv.subrange(0, i as int + 1).drop_last() =~= vv.subrange(0, i as int));
            assert(vv.subrange(0, i as int + 1).last() == vv[i as int]);
        }
        let mut found = false;
        let mut k: usize = 0;
        while k < out.len()
            invariant
                d == crate::graph::element::elems_view(out@),
                d.len() == out@.len(),
                forall|q: int| 0 <= q < out@.len() ==> #[trigger] d[q] == out@[q]@,
                i < vals@.len(),
                k <= out@.len(),
                found == exists|q: int| 0 <= q < k && d[q] == vals@[i as int]@,
            decreases out@.len() - k,
        {
            if out[k].equals(&vals[i]) {
                assert(d[k as int] == vals@[i as int]@);
                found = true;
            } else {
                assert(d[k as int] != vals@[i as int]@);
            }
            k = k + 1;
        }
        assert(found == d.contains(vv[i as int]));
        if !found {
            let ghost before = out@;
            out.push(vals[i].copy());
            proof {
                assert(out@.subrange(0, out@.len() - 1) =~= before);
            }
        }
        i = i + 1;
    }
    assert(vv.subrange(0, vals@.len() as int) =~= vv);
    out
}

/// Binds in `row` what item `it` binds for the group led by row `i` (see `group_item`).
fn bind_group_item(g: &Graph, row: &mut Row, rs: &ResultSet, ms: &Vec<usize>, i: usize, it: &ProjectionItem)
    requires
        g.wf(),
        old(row).wf(),
        rs.wf(),
        i < rs@.rows.len(),
        forall|q: int| 0 <= q < ms@.len() ==> #[trigger] ms@[q] < rs@.rows.len(),
    ensures
        final(row).wf(),
        final(row)@ == apply_bindings(old(row)@, group_item(g.nodes@, g.edges@, rs@.rows, ints(ms@), i as int, it@)),
{
    let ghost rows = rs@.rows;
    proof { rs.lemma_wf(); }
    match it {
        ProjectionItem::Variable(v) => match rs.get(i, v.as_str()) {
            Some(e) => {
                row.set(v.as_str(), e.copy());
                proof { lemma_apply_one(old(row)@, v@, rows[i as int][v@]); }
            },
            None => {},
        },
        ProjectionItem::AliasedVariable(v, a) => match rs.get(i, v.as_str()) {
            Some(e) => {
                row.set(a.as_str(), e.copy());
                proof { lemma_apply_one(old(row)@, a@, rows[i as int][v@]); }
            },
            None => {},
        },
        ProjectionItem::Aggregate { func, var, .. } => {
            let key = item_key_exec(it).unwrap();
            proof { reveal_strlit("COUNT"); reveal_strlit("COLLECT"); reveal_strlit("UNIQUE"); reveal_strlit("*"); }
            if crate::keyed::str_eq(func.as_str(), "COUNT") {
                let c = if crate::keyed::str_eq(var.as_str(), "*") {
                    ms.len()
                } else {
                    let vals = bound_values(rs, ms, var.as_str());
                    proof { crate::graph::element::lemma_elems_view(vals@); }
                    vals.len()
                };
                let num = Number::from_usize(c);
                row.set(key.as_str(), GraphElement::Number(num));
                proof {
                    lemma_apply_one(old(row)@, key@, ElemV::Number(num_of_nat(c as nat)));
                }
            } else if crate::keyed::str_eq(func.as_str(), "COLLECT") {
                let vals = bound_values(rs, ms, var.as_str());
                row.set(key.as_str(), GraphElement::List(vals));
                proof { lemma_apply_one(old(row)@, key@, ElemV::List(bound_vals(rows, ints(ms@), var@))); }
            } else if crate::keyed::str_eq(func.as_str(), "UNIQUE") {
                let vals = bound_values(rs, ms, var.as_str());
                let u = dedup_values(&vals);
                row.set(key.as_str(), GraphElement::List(u));
                proof { lemma_apply_one(old(row)@, key@, ElemV::List(dedup(bound_vals(rows, ints(ms@), var@)))); }
            } else {
                assert(group_item(g.nodes@, g.edges@, rows, ints(ms@), i as int, it@) =~= Seq::<(Seq<char>, ElemV)>::empty());
            }
        },
        ProjectionItem::Function { func, args, .. } => {
            let vals = g.evaluate_arguments(args, rs, i);
            match call_function(func.as_str(), &vals) {
                Some(x) => {
                    let k = item_key_exec(it).unwrap();
                    let ghost xv = x@;
                    proof { lemma_call_not_null(func@, elems_view(vals@)); }
                    row.set(k.as_str(), x);
                    proof { lemma_apply_one(old(row)@, k@, xv); }
                },
                None => {},
            }
        },
        ProjectionItem::Star => {},
    }
    proof {
        if group_item(g.nodes@, g.edges@, rows, ints(ms@), i as int, it@).len() == 0 {
            assert(group_item(g.nodes@, g.edges@, rows, ints(ms@), i as int, it@) =~= Seq::<(Seq<char>, ElemV)>::empty());
        }
    }
}

/// The row of the group led by row `i` with members `ms` (see `group_row`).
fn group_row_exec(g: &Graph, items: &Vec<ProjectionItem>, rs: &ResultSet, ms: &Vec<usize>, i: usize) -> (r: Row)
    requires
        g.wf(),
        rs.wf(),
        i < rs@.rows.len(),
        forall|q: int| 0 <= q < ms@.len() ==> #[trigger] ms@[q] < rs@.rows.len(),
    ensures
        r.wf(),
        r@ == apply_bindings(Map::empty(), group_bindings(g.nodes@, g.edges@, rs@.rows, ints(ms@), i as int, items_view(items@))),
{
    let ghost iv = items_view(items@);
    let mut row = Row::new();
    let mut j: usize = 0;
    while j < items.len()
        invariant
            g.wf(),
            rs.wf(),
            row.wf(),
            i < rs@.rows.len(),
            forall|q: int| 0 <= q < ms@.len() ==> #[trigger] ms@[q] < rs@.rows.len(),
            iv == items_view(items@),
            j <= items@.len(),
            row@ == apply_bindings(Map::empty(), group_bindings(g.nodes@, g.edges@, rs@.rows, ints(ms@), i as int, iv.subrange(0, j as int))),
        decreases items@.len() - j,
    {
        bind_group_item(g, &mut row, rs, ms, i, &items[j]);
        proof {
            assert(iv.subrange(0, j as int + 1).drop_last() =~= iv.subrange(0, j as int));
            assert(iv.subrange(0, j as int + 1).last() == iv[j as int]);
            lemma_apply_bindings_concat(Map::empty(), group_bindings(g.nodes@, g.edges@, rs@.rows, ints(ms@), i as int, iv.subrange(0, j as int)),
                group_item(g.nodes@, g.edges@, rs@.rows, ints(ms@), i as int, iv[j as int]));
        }
        j = j + 1;
    }
    assert(iv.subrange(0, items@.len() as int) =~= iv);
    row
}

/// Filtering positions, one more.
proof fn lemma_positions_step(n: nat, i: int, p: spec_fn(int) -> bool)
    requires
        0 <= i < n,
    ensures
        positions(n).subrange(0, i + 1).filter(p) == if p(i) { positions(n).subrange(0, i).filter(p).push(i) } else { positions(n).subrange(0, i).filter(p) },
{
    assert(positions(n).subrange(0, i + 1) =~= positions(n).subrange(0, i).push(i));
    positions(n).subrange(0, i).lemma_filter_push(i, p);
}

/// One row per group of rows with equal grouping keys, in the order of their first rows (see
/// `group_rows`).
pub fn project_groups(g: &Graph, items: &Vec<ProjectionItem>, rs: &ResultSet) -> (out: ResultSet)
    requires
        g.wf(),
        rs.wf(),
    ensures
        out.wf(),
        out@.rows == group_rows(g.nodes@, g.edges@, rs@.rows, items_view(items@)),
{
    let ghost rows = rs@.rows;
    let ghost iv = items_view(items@);
    let ghost ks = row_keys(rows, iv);
    let n = rs.rows();
    let mut keys: Vec<Vec<Option<GraphElement>>> = Vec::new();
    let mut i: usize = 0;
    while i < n
        invariant
            g.wf(),
            rs.wf(),
            rows == rs@.rows,
            iv == items_view(items@),
            ks == row_keys(rows, iv),
            n == rows.len(),
            i <= n,
            keys@.len() == i,
            forall|q: int| 0 <= q < i ==> #[trigger] key_view(keys@[q]@) == ks[q],
        decreases n - i,
    {
        let k = key_of_row(items, rs.row(i));
        keys.push(k);
        i = i + 1;
    }
    let ghost lead = |x: int| is_leader(ks, x);
    let ghost grow = |x: int| group_row(g.nodes@, g.edges@, rows, iv, x);
    let mut out = ResultSet::new();
    let mut i: usize = 0;
    while i < n
        invariant
            g.wf(),
            rs.wf(),
            out.wf(),
            rows == rs@.rows,
            iv == items_view(items@),
            ks == row_keys(rows, iv),
            ks.len() == n,
            n == rows.len(),
            keys@.len() == n,
            forall|q: int| 0 <= q < n ==> #[trigger] key_view(keys@[q]@) == ks[q],
            lead == (|x: int| is_leader(ks, x)),
            grow == (|x: int| group_row(g.nodes@, g.edges@, rows, iv, x)),
            i <= n,
            out@.rows == positions(n as nat).subrange(0, i as int).filter(lead).map_values(grow),
        decreases n - i,
    {
        let mut is_first = true;
        let mut j: usize = 0;
        while j < i
            invariant
                keys@.len() == n,
                ks.len() == n,
                forall|q: int| 0 <= q < n ==> #[trigger] key_view(keys@[q]@) == ks[q],
                i < n,
                j <= i,
                is_first == forall|q: int| 0 <= q < j ==> ks[q] != ks[i as int],
            decreases i - j,
        {
            if keys_equal(&keys[j], &keys[i]) {
                assert(ks[j as int] == ks[i as int]);
                is_first = false;
            }
            j = j + 1;
        }
        proof { lemma_positions_step(n as nat, i as int, lead); }
        if is_first {
            let mut ms: Vec<usize> = Vec::new();
            let ghost same = |x: int| ks[x] == ks[i as int];
            let mut j: usize = 0;
            while j < n
                invariant
                    keys@.len() == n,
                    ks.len() == n,
                    forall|q: int| 0 <= q < n ==> #[trigger] key_view(keys@[q]@) == ks[q],
                    i < n,
                    j <= n,
                    same == (|x: int| ks[x] == ks[i as int]),
                    ints(ms@) == positions(n as nat).subrange(0, j as int).filter(same),
                    forall|q: int| 0 <= q < ms@.len() ==> #[trigger] ms@[q] < n,
                decreases n - j,
            {
                proof { lemma_positions_step(n as nat, j as int, same); }
                if keys_equal(&keys[j], &keys[i]) {
                    let ghost before = ms@;
                    ms.push(j);
                    assert(ints(ms@) =~= ints(before).push(j as int));
                }
                j = j + 1;
            }
            assert(positions(n as nat).subrange(0, n as int) =~= positions(n as nat));
            assert(ints(ms@) == members(ks, i as int));
            let row = group_row_exec(g, items, rs, &ms, i);
            out.push_row(&row);
            proof {
                assert(row@ == grow(i as int));
                assert(positions(n as nat).subrange(0, i as int + 1).filter(lead).map_values(grow)
                    =~= positions(n as nat).subrange(0, i as int).filter(lead).map_values(grow).push(grow(i as int)));
            }
        }
        i = i + 1;
    }
    assert(positions(n as nat).subrange(0, n as int) =~= positions(n as nat));
    out
}

// ---------------------------------------------------------------------------------------------
// Ordering rows.

/// The sort keys of a row: the value of each order item's expression.
pub open spec fn row_sort_keys(g: Graph, row: RowV, order: Seq<OrderItemV>) -> Seq<EvalV> {
    order.map_values(|o: OrderItemV| eval_spec(g.nodes@, g.edges@, row, o.expr))
}

/// The order of two rows' sort keys from item `k` on, as a sign: the first item whose values
/// differ decides, reversed when it sorts descending; values with no order count as equal.
pub open spec fn keys_sign(a: Seq<EvalV>, b: Seq<EvalV>, order: Seq<OrderItemV>, k: nat) -> int
    decreases order.len() - k,
{
    if k >= order.len() {
        0
    } else {
        let c0 = order_sign(a[k as int], b[k as int]);
        let c = if order[k as int].asc { c0 } else { -c0 };
        if c != 0 { c } else { keys_sign(a, b, order, k + 1) }
    }
}

/// Where an entry goes among sorted ones: before the first (from `j` on) that sorts after it.
pub open spec fn insert_at(sorted: Seq<(Seq<EvalV>, int)>, x: (Seq<EvalV>, int), order: Seq<OrderItemV>, j: nat) -> nat
    decreases sorted.len() - j,
{
    if j >= sorted.len() {
        sorted.len()
    } else if keys_sign(sorted[j as int].0, x.0, order, 0) > 0 {
        j
    } else {
        insert_at(sorted, x, order, j + 1)
    }
}

/// The entries sorted by inserting each in turn after those it does not sort before (a stable
/// sort).
pub open spec fn isort(s: Seq<(Seq<EvalV>, int)>, order: Seq<OrderItemV>) -> Seq<(Seq<EvalV>, int)>
    decreases s.len(),
{
    if s.len() == 0 {
        Seq::empty()
    } else {
        let t = isort(s.drop_last(), order);
        t.insert(insert_at(t, s.last(), order, 0) as int, s.last())
    }
}

/// Each row's sort keys and position.
pub open spec fn sort_entries(g: Graph, rows: Seq<RowV>, order: Seq<OrderItemV>) -> Seq<(Seq<EvalV>, int)> {
    Seq::new(rows.len(), |i: int| (row_sort_keys(g, rows[i], order), i))
}

/// The rows in the order of their sort keys, rows with equal keys in their first order.
pub open spec fn sorted_rows(g: Graph, rows: Seq<RowV>, order: Seq<OrderItemV>) -> Seq<RowV> {
    isort(sort_entries(g, rows, order), order).map_values(|e: (Seq<EvalV>, int)| rows[e.1])
}

/// The view of computed sort keys.
pub open spec fn evals_view(ks: Seq<EvalValue>) -> Seq<EvalV> {
    ks.map_values(|v: EvalValue| v@)
}

/// The view of sorted entries.
pub open spec fn entries_view(es: Seq<(Vec<EvalValue>, usize)>) -> Seq<(Seq<EvalV>, int)> {
    es.map_values(|e: (Vec<EvalValue>, usize)| (evals_view(e.0@), e.1 as int))
}

/// The order of two rows' sort keys (see `keys_sign`).
fn keys_sign_exec(a: &Vec<EvalValue>, b: &Vec<EvalValue>, order: &Vec<OrderItem>) -> (r: i8)
    requires
        a@.len() == order@.len(),
        b@.len() == order@.len(),
    ensures
        r as int == keys_sign(evals_view(a@), evals_view(b@), order_view(order@), 0),
{
    let ghost ov = order_view(order@);
    let mut k: usize = 0;
    while k < order.len()
        invariant
            a@.len() == order@.len(),
            b@.len() == order@.len(),
            ov == order_view(order@),
            k <= order@.len(),
            keys_sign(evals_view(a@), evals_view(b@), ov, 0) == keys_sign(evals_view(a@), evals_view(b@), ov, k as nat),
        decreases order@.len() - k,
    {
        let c0 = order_sign_exec(&a[k], &b[k]);
        let c = if order[k].asc { c0 } else { -c0 };
        assert(ov[k as int].asc == order@[k as int].asc);
        if c != 0 {
            return c;
        }
        k = k + 1;
    }
    0
}

/// The sort keys of row `i` (see `row_sort_keys`).
fn sort_keys_exec(g: &Graph, order: &Vec<OrderItem>, res: &ResultSet, i: usize) -> (r: Vec<EvalValue>)
    requires
        g.wf(),
        res.wf(),
        i < res@.rows.len(),
    ensures
        r@.len() == order@.len(),
        evals_view(r@) == row_sort_keys(*g, res@.rows[i as int], order_view(order@)),
{
    let mut keys: Vec<EvalValue> = Vec::new();
    let mut k: usize = 0;
    while k < order.len()
        invariant
            g.wf(),
            res.wf(),
            i < res@.rows.len(),
            k <= order@.len(),
            keys@.len() == k,
            evals_view(keys@) == row_sort_keys(*g, res@.rows[i as int], order_view(order@).subrange(0, k as int)),
        decreases order@.len() - k,
    {
        let v = g.evaluate_expression(&order[k].expr, res, i);
        let ghost before = keys@;
        let ghost vv = v@;
        keys.push(v);
        assert(order_view(order@)[k as int] == order@[k as int]@);
        assert(evals_view(keys@) =~= evals_view(before).push(vv));
        assert(order_view(order@).subrange(0, k as int + 1) =~= order_view(order@).subrange(0, k as int).push(order_view(order@)[k as int]));
        assert(evals_view(keys@) =~= row_sort_keys(*g, res@.rows[i as int], order_view(order@).subrange(0, k as int + 1)));
        k = k + 1;
    }
    assert(order_view(order@).subrange(0, order@.len() as int) =~= order_view(order@));
    keys
}

/// The rows sorted by the order items (see `sorted_rows`).
pub fn order_rows(g: &Graph, order: &Vec<OrderItem>, res: &ResultSet) -> (out: ResultSet)
    requires
        g.wf(),
        res.wf(),
    ensures
        out.wf(),
        out@.rows == sorted_rows(*g, res@.rows, order_view(order@)),
{
    let ghost rows = res@.rows;
    let ghost ov = order_view(order@);
    let ghost es = sort_entries(*g, rows, ov);
    let n = res.rows();
    let mut sorted: Vec<(Vec<EvalValue>, usize)> = Vec::new();
    let mut i: usize = 0;
    while i < n
        invariant
            g.wf(),
            res.wf(),
            rows == res@.rows,
            ov == order_view(order@),
            es == sort_entries(*g, rows, ov),
            n == rows.len(),
            i <= n,
            entries_view(sorted@) == isort(es.subrange(0, i as int), ov),
            forall|q: int| 0 <= q < sorted@.len() ==> (#[trigger] sorted@[q]).0@.len() == order@.len() && sorted@[q].1 < n,
        decreases n - i,
    {
        let keys = sort_keys_exec(g, order, res, i);
        let ghost t = entries_view(sorted@);
        let ghost x = (evals_view(keys@), i as int);
        assert(x == es[i as int]);
        let mut j: usize = 0;
        while j < sorted.len() && keys_sign_exec(&sorted[j].0, &keys, order) <= 0
            invariant
                t == entries_view(sorted@),
                keys@.len() == order@.len(),
                x == (evals_view(keys@), i as int),
                ov == order_view(order@),
                forall|q: int| 0 <= q < sorted@.len() ==> (#[trigger] sorted@[q]).0@.len() == order@.len() && sorted@[q].1 < n,
                j <= sorted@.len(),
                insert_at(t, x, ov, 0) == insert_at(t, x, ov, j as nat),
            decreases sorted@.len() - j,
        {
            assert(t[j as int] == (evals_view(sorted@[j as int].0@), sorted@[j as int].1 as int));
            j = j + 1;
        }
        proof {
            if j < sorted@.len() {
                assert(t[j as int] == (evals_view(sorted@[j as int].0@), sorted@[j as int].1 as int));
            }
            assert(es.subrange(0, i as int + 1).drop_last() =~= es.subrange(0, i as int));
            assert(es.subrange(0, i as int + 1).last() == x);
        }
        let ghost before = sorted@;
        sorted.insert(j, (keys, i));
        proof {
            assert(entries_view(sorted@) =~= t.insert(j as int, x));
            assert forall|q: int| 0 <= q < sorted@.len() implies (#[trigger] sorted@[q]).0@.len() == order@.len() && sorted@[q].1 < n by {
                if q < j {
                    assert(sorted@[q] == before[q]);
                } else if q > j {
                    assert(sorted@[q] == before[q - 1]);
                }
            }
        }
        i = i + 1;
    }
    assert(es.subrange(0, n as int) =~= es);
    let ghost f = |e: (Seq<EvalV>, int)| rows[e.1];
    let mut out = ResultSet::new();
    let mut k: usize = 0;
    while k < sorted.len()
        invariant
            res.wf(),
            out.wf(),
            rows == res@.rows,
            n == rows.len(),
            f == (|e: (Seq<EvalV>, int)| rows[e.1]),
            forall|q: int| 0 <= q < sorted@.len() ==> (#[trigger] sorted@[q]).1 < n,
            k <= sorted@.len(),
            out@.rows == entries_view(sorted@).subrange(0, k as int).map_values(f),
        decreases sorted@.len() - k,
    {
        let idx = sorted[k].1;
        out.push_row(res.row(idx));
        assert(entries_view(sorted@).subrange(0, k as int + 1).map_values(f)
            =~= entries_view(sorted@).subrange(0, k as int).map_values(f).push(rows[idx as int]));
        k = k + 1;
    }
    assert(entries_view(sorted@).subrange(0, sorted@.len() as int) =~= entries_view(sorted@));
    out
}

} // verus!
