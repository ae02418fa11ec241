use vstd::prelude::*;
use crate::edge::Edge;
use crate::graph::Graph;
use crate::graph::element::{ elem_pairs_view, elems_view, lemma_elem_pairs_view, lemma_elems_view, ElemV, GraphElement};
use crate::graph::plan_exec::prop_debug;
use crate::node::Node;
use crate::property::{NumV, Number, PropV, PropertyMap};
use crate::text::{append, debug_quoted, nat_text, push_char, push_debug_quoted, push_safe_digits, push_u64, push_usize, safe_digit_chars};

verus! {

/// The texts joined, `sep` between each two.
pub open spec fn join(items: Seq<Seq<char>>, sep: Seq<char>) -> Seq<char>
    decreases items.len(),
{
    if items.len() == 0 {
        Seq::empty()
    } else if items.len() == 1 {
        items[0]
    } else {
        join(items.drop_last(), sep) + sep + items.last()
    }
}

/// `true` or `false`.
pub open spec fn bool_text(b: bool) -> Seq<char> {
    if b { "true"@ } else { "false"@ }
}

/// A list of ids as a debug listing writes it: `[0, 1]`.
pub open spec fn ids_debug(ids: Seq<usize>) -> Seq<char> {
    "["@ + join(ids.map_values(|i: usize| nat_text(i as nat)), ", "@) + "]"@
}

/// One property as a debug listing of a map writes it: `"name": String("Ann")`.
pub open spec fn prop_entry_debug(e: (Seq<char>, PropV)) -> Seq<char> {
    debug_quoted(e.0) + ": "@ + prop_debug(e.1)
}

/// The properties, in increasing order of names, as a debug listing of a map writes them.
pub open spec fn props_debug(es: Seq<(Seq<char>, PropV)>) -> Seq<char> {
    "{"@ + join(es.map_values(|e: (Seq<char>, PropV)| prop_entry_debug(e)), ", "@) + "}"@
}

/// `None`, or the number in `Some(..)`.
pub open spec fn opt_debug(o: Option<u64>) -> Seq<char> {
    match o {
        Some(x) => "Some("@ + nat_text(x as nat) + ")"@,
        None => "None"@,
    }
}

/// A node as a debug listing writes it (properties in increasing order of names).
pub open spec fn node_debug(n: Node) -> Seq<char> {
    "Node { id: "@ + debug_quoted(n.id@) + ", labels: "@ + ids_debug(n.labels@) + ", edges: "@ + ids_debug(n.edges@)
        + ", properties: "@ + props_debug(n.properties.ordered()) + ", deleted: "@ + bool_text(n.deleted)
        + ", created_by: "@ + nat_text(n.created_by as nat) + ", deleted_by: "@ + opt_debug(n.deleted_by) + " }"@
}

/// An edge as a debug listing writes it (properties in increasing order of names).
pub open spec fn edge_debug(e: Edge) -> Seq<char> {
    "Edge { id: "@ + debug_quoted(e.id@) + ", labels: "@ + ids_debug(e.labels@) + ", start: "@ + nat_text(e.start as nat)
        + ", end: "@ + nat_text(e.end as nat) + ", properties: "@ + props_debug(e.properties.ordered()) + ", deleted: "@
        + bool_text(e.deleted) + ", created_by: "@ + nat_text(e.created_by as nat) + ", deleted_by: "@ + opt_debug(e.deleted_by) + " }"@
}

/// The digits, or `0` when there are none.
pub open spec fn digit_chars_or_zero(ds: Seq<u8>) -> Seq<char> {
    if ds.len() == 0 { seq!['0'] } else { safe_digit_chars(ds) }
}

/// A number as plain text: its digits, and a point and its fraction only when it has one.
pub open spec fn number_display(n: NumV) -> Seq<char> {
    (if n.negative { seq!['-'] } else { Seq::empty() })
        + digit_chars_or_zero(n.int_digits)
        + (if n.frac_digits.len() == 0 { Seq::empty() } else { seq!['.'] + safe_digit_chars(n.frac_digits) })
}

/// The node with id `id` as text, `null` when there is none.
pub open spec fn node_text(nodes: Seq<Node>, id: usize) -> Seq<char> {
    if id < nodes.len() { node_debug(nodes[id as int]) } else { "null"@ }
}

/// The edge with id `id` as text, `null` when there is none.
pub open spec fn edge_text(edges: Seq<Edge>, id: usize) -> Seq<char> {
    if id < edges.len() { edge_debug(edges[id as int]) } else { "null"@ }
}

/// An element as plain text: nodes and edges as debug listings, lists in brackets, maps in
/// braces, strings in double quotes (unescaped).
pub open spec fn elem_text(nodes: Seq<Node>, edges: Seq<Edge>, e: ElemV) -> Seq<char>
    decreases e, 0nat,
{
    match e {
        ElemV::Node(id) => node_text(nodes, id),
        ElemV::Edge(id) => edge_text(edges, id),
        ElemV::EdgeArray(ids) => "["@ + join(ids.map_values(|id: usize| edge_text(edges, id)), ", "@) + "]"@,
        ElemV::Path(es) => "["@ + join(elems_texts(nodes, edges, es), ", "@) + "]"@,
        ElemV::List(es) => "["@ + join(elems_texts(nodes, edges, es), ", "@) + "]"@,
        ElemV::MapValue(ps) => "{"@ + join(pairs_texts(nodes, edges, ps), ", "@) + "}"@,
        ElemV::Number(n) => number_display(n),
        ElemV::Text(s) => "\""@ + s + "\""@,
        ElemV::Boolean(b) => bool_text(b),
        ElemV::Null => "null"@,
    }
}

/// The texts of the elements.
pub open spec fn elems_texts(nodes: Seq<Node>, edges: Seq<Edge>, es: Seq<ElemV>) -> Seq<Seq<char>>
    decreases es, es.len(),
{
    if es.len() == 0 {
        Seq::empty()
    } else {
        elems_texts(nodes, edges, es.subrange(0, es.len() - 1)).push(elem_text(nodes, edges, es[es.len() - 1]))
    }
}

/// The texts of the entries, `name: value`.
pub open spec fn pairs_texts(nodes: Seq<Node>, edges: Seq<Edge>, ps: Seq<(Seq<char>, ElemV)>) -> Seq<Seq<char>>
    decreases ps, ps.len(),
{
    if ps.len() == 0 {
        Seq::empty()
    } else {
        pairs_texts(nodes, edges, ps.subrange(0, ps.len() - 1)).push(ps[ps.len() - 1].0 + ": "@ + elem_text(nodes, edges, ps[ps.len() - 1].1))
    }
}

/// Joining one more text.
pub proof fn lemma_join_push(items: Seq<Seq<char>>, x: Seq<char>, sep: Seq<char>)
    ensures
        join(items.push(x), sep) == if items.len() == 0 { x } else { join(items, sep) + sep + x },
{
    assert(items.push(x).drop_last() =~= items);
}

/// Appends `sep` unless nothing was joined yet.
fn push_sep(s: &mut String, i: usize, sep: &str)
    ensures
        final(s)@ == old(s)@ + if i == 0 { Seq::empty() } else { sep@ },
{
    if i > 0 {
        append(s, sep);
    } else {
        assert(s@ =~= old(s)@ + Seq::<char>::empty());
    }
}

/// Appends a list of ids as a debug listing writes it.
fn push_ids_debug(s: &mut String, ids: &Vec<usize>)
    ensures
        final(s)@ == old(s)@ + ids_debug(ids@),
{
    let ghost items = ids@.map_values(|i: usize| nat_text(i as nat));
    append(s, "[");
    let ghost s1 = s@;
    let mut i: usize = 0;
    while i < ids.len()
        invariant
            i <= ids@.len(),
            items == ids@.map_values(|i: usize| nat_text(i as nat)),
            s@ == s1 + join(items.subrange(0, i as int), ", "@),
        decreases ids@.len() - i,
    {
        push_sep(s, i, ", ");
        push_usize(s, ids[i]);
        proof {
            lemma_join_push(items.subrange(0, i as int), items[i as int], ", "@);
            assert(items.subrange(0, i as int).push(items[i as int]) =~= items.subrange(0, i as int + 1));
        }
        i = i + 1;
    }
    assert(items.subrange(0, ids@.len() as int) =~= items);
    append(s, "]");
}

/// Appends the properties as a debug listing of a map writes them.
fn push_props_debug(s: &mut String, m: &PropertyMap)
    requires
        m.wf(),
    ensures
        final(s)@ == old(s)@ + props_debug(m.ordered()),
{
    let ghost es = m.ordered();
    let ghost items = es.map_values(|e: (Seq<char>, PropV)| prop_entry_debug(e));
    append(s, "{");
    let ghost s1 = s@;
    let n = m.len();
    let mut i: usize = 0;
    while i < n
        invariant
            m.wf(),
            es == m.ordered(),
            n == es.len(),
            i <= n,
            items == es.map_values(|e: (Seq<char>, PropV)| prop_entry_debug(e)),
            s@ == s1 + join(items.subrange(0, i as int), ", "@),
        decreases n - i,
    {
        push_sep(s, i, ", ");
        let (k, v) = m.entry(i);
        push_debug_quoted(s, k.as_str());
        append(s, ": ");
        crate::graph::plan_exec::push_prop_debug(s, v);
        proof {
            lemma_join_push(items.subrange(0, i as int), items[i as int], ", "@);
            assert(items.subrange(0, i as int).push(items[i as int]) =~= items.subrange(0, i as int + 1));
        }
        i = i + 1;
    }
    assert(items.subrange(0, n as int) =~= items);
    append(s, "}");
}

/// Appends `true` or `false`.
fn push_bool(s: &mut String, b: bool)
    ensures
        final(s)@ == old(s)@ + bool_text(b),
{
    if b { append(s, "true") } else { append(s, "false") }
}

/// Appends `None` or `Some(x)`.
fn push_opt(s: &mut String, o: Option<u64>)
    ensures
        final(s)@ == old(s)@ + opt_debug(o),
{
    match o {
        Some(x) => {
            append(s, "Some(");
            push_u64(s, x);
            append(s, ")");
            assert(s@ =~= old(s)@ + opt_debug(o));
        },
        None => append(s, "None"),
    }
}

/// Appends a node as a debug listing writes it.
#[verifier::spinoff_prover]
#[verifier::rlimit(30)]
fn push_node_debug(s: &mut String, n: &Node)
    requires
        n.properties.wf(),
    ensures
        final(s)@ == old(s)@ + node_debug(*n),
{
    append(s, "Node { id: ");
    push_debug_quoted(s, n.id.as_str());
    append(s, ", labels: ");
    push_ids_debug(s, &n.labels);
    append(s, ", edges: ");
    push_ids_debug(s, &n.edges);
    append(s, ", properties: ");
    push_props_debug(s, &n.properties);
    append(s, ", deleted: ");
    push_bool(s, n.deleted);
    append(s, ", created_by: ");
    push_u64(s, n.created_by);
    append(s, ", deleted_by: ");
    push_opt(s, n.deleted_by);
    append(s, " }");
    assert(s@ =~= old(s)@ + node_debug(*n));
}

/// Appends an edge as a debug listing writes it.
#[verifier::spinoff_prover]
#[verifier::rlimit(30)]
fn push_edge_debug(s: &mut String, e: &Edge)
    requires
        e.properties.wf(),
    ensures
        final(s)@ == old(s)@ + edge_debug(*e),
{
    append(s, "Edge { id: ");
    push_debug_quoted(s, e.id.as_str());
    append(s, ", labels: ");
    push_ids_debug(s, &e.labels);
    append(s, ", start: ");
    push_usize(s, e.start);
    append(s, ", end: ");
    push_usize(s, e.end);
    append(s, ", properties: ");
    push_props_debug(s, &e.properties);
    append(s, ", deleted: ");
    push_bool(s, e.deleted);
    append(s, ", created_by: ");
    push_u64(s, e.created_by);
    append(s, ", deleted_by: ");
    push_opt(s, e.deleted_by);
    append(s, " }");
    assert(s@ =~= old(s)@ + edge_debug(*e));
}

/// Appends a number as plain text (see `number_display`).
pub fn push_number_display(s: &mut String, n: &Number)
    ensures
        final(s)@ == old(s)@ + number_display(n@),
{
    if n.negative {
        push_char(s, '-');
    }
    let ghost s1 = s@;
    assert(s1 == old(s)@ + (if n@.negative { seq!['-'] } else { Seq::<char>::empty() }));
    if n.int_digits.len() == 0 {
        push_char(s, '0');
    } else {
        push_safe_digits(s, &n.int_digits);
    }
    let ghost s2 = s@;
    assert(s2 == s1 + digit_chars_or_zero(n@.int_digits));
    if n.frac_digits.len() > 0 {
        push_char(s, '.');
        push_safe_digits(s, &n.frac_digits);
    }
    assert(s@ =~= old(s)@ + number_display(n@));
}

impl Graph {
    /// Appends the node with id `id` as text (see `node_text`).
    fn push_node_text(&self, s: &mut String, id: usize)
        requires
            self.wf(),
        ensures
            final(s)@ == old(s)@ + node_text(self.nodes@, id),
    {
        if id < self.nodes.len() {
            assert(self.nodes@[id as int].properties.wf());
            push_node_debug(s, &self.nodes[id]);
        } else {
            append(s, "null");
        }
    }

    /// Appends the edge with id `id` as text (see `edge_text`).
    fn push_edge_text(&self, s: &mut String, id: usize)
        requires
            self.wf(),
        ensures
            final(s)@ == old(s)@ + edge_text(self.edges@, id),
    {
        if id < self.edges.len() {
            assert(self.edges@[id as int].properties.wf());
            push_edge_debug(s, &self.edges[id]);
        } else {
            append(s, "null");
        }
    }

    /// Appends an element as plain text (see `elem_text`).
    pub fn push_element_text(&self, s: &mut String, e: &GraphElement)
        requires
            self.wf(),
        ensures
            final(s)@ == old(s)@ + elem_text(self.nodes@, self.edges@, e@),
        decreases e,
    {
        match e {
            GraphElement::Node(id) => self.push_node_text(s, *id),
            GraphElement::Edge(id) => self.push_edge_text(s, *id),
            GraphElement::EdgeArray(ids) => {
                let ghost items = ids@.map_values(|id: usize| edge_text(self.edges@, id));
                append(s, "[");
                let ghost s1 = s@;
                let mut i: usize = 0;
                while i < ids.len()
                    invariant
                        self.wf(),
                        i <= ids@.len(),
                        items == ids@.map_values(|id: usize| edge_text(self.edges@, id)),
                        s@ == s1 + join(items.subrange(0, i as int), ", "@),
                    decreases ids@.len() - i,
                {
                    push_sep(s, i, ", ");
                    self.push_edge_text(s, ids[i]);
                    proof {
                        lemma_join_push(items.subrange(0, i as int), items[i as int], ", "@);
                        assert(items.subrange(0, i as int).push(items[i as int]) =~= items.subrange(0, i as int + 1));
                    }
                    i = i + 1;
                }
                assert(items.subrange(0, ids@.len() as int) =~= items);
                append(s, "]");
                assert(s@ =~= old(s)@ + elem_text(self.nodes@, self.edges@, e@));
            },
            GraphElement::Path(es) | GraphElement::List(es) => {
                append(s, "[");
                self.push_elems_text(s, es);
                append(s, "]");
                assert(s@ =~= old(s)@ + elem_text(self.nodes@, self.edges@, e@));
            },
            GraphElement::MapValue(ps) => {
                append(s, "{");
                self.push_pairs_text(s, ps);
                append(s, "}");
                assert(s@ =~= old(s)@ + elem_text(self.nodes@, self.edges@, e@));
            },
            GraphElement::Number(n) => push_number_display(s, n),
            GraphElement::String(t) => {
                append(s, "\"");
                append(s, t.as_str());
                append(s, "\"");
                assert(s@ =~= old(s)@ + elem_text(self.nodes@, self.edges@, e@));
            },
            GraphElement::Boolean(b) => push_bool(s, *b),
            GraphElement::Null => append(s, "null"),
        }
    }

    /// Appends the texts of the elements, `, ` between each two.
    fn push_elems_text(&self, s: &mut String, es: &Vec<GraphElement>)
        requires
            self.wf(),
        ensures
            final(s)@ == old(s)@ + join(elems_texts(self.nodes@, self.edges@, elems_view(es@)), ", "@),
        decreases es@,
    {
        let ghost ev = elems_view(es@);
        let ghost items = elems_texts(self.nodes@, self.edges@, ev);
        proof { lemma_elems_view(es@); lemma_elems_texts(self.nodes@, self.edges@, ev); }
        let ghost s1 = s@;
        let mut i: usize = 0;
        while i < es.len()
            invariant
                self.wf(),
                i <= es@.len(),
                ev == elems_view(es@),
                ev.len() == es@.len(),
                forall|j: int| 0 <= j < es@.len() ==> #[trigger] ev[j] == es@[j]@,
                items == elems_texts(self.nodes@, self.edges@, ev),
                items.len() == ev.len(),
                forall|j: int| 0 <= j < ev.len() ==> #[trigger] items[j] == elem_text(self.nodes@, self.edges@, ev[j]),
                s@ == s1 + join(items.subrange(0, i as int), ", "@),
            decreases es@.len() - i,
        {
            push_sep(s, i, ", ");
            self.push_element_text(s, &es[i]);
            proof {
                lemma_join_push(items.subrange(0, i as int), items[i as int], ", "@);
                assert(items.subrange(0, i as int).push(items[i as int]) =~= items.subrange(0, i as int + 1));
            }
            i = i + 1;
        }
        assert(items.subrange(0, es@.len() as int) =~= items);
    
    }

    /// Appends the texts of the entries, `, ` between each two.
    fn push_pairs_text(&self, s: &mut String, ps: &Vec<(String, GraphElement)>)
        requires
            self.wf(),
        ensures
            final(s)@ == old(s)@ + join(pairs_texts(self.nodes@, self.edges@, elem_pairs_view(ps@)), ", "@),
        decreases ps@,
    {
        let ghost pv = elem_pairs_view(ps@);
        let ghost items = pairs_texts(self.nodes@, self.edges@, pv);
        proof { lemma_elem_pairs_view(ps@); lemma_pairs_texts(self.nodes@, self.edges@, pv); }
        let ghost s1 = s@;
        let mut i: usize = 0;
        while i < ps.len()
            invariant
                self.wf(),
                i <= ps@.len(),
                pv == elem_pairs_view(ps@),
                pv.len() == ps@.len(),
                forall|j: int| 0 <= j < ps@.len() ==> #[trigger] pv[j] == (ps@[j].0@, ps@[j].1@),
                items == pairs_texts(self.nodes@, self.edges@, pv),
                items.len() == pv.len(),
                forall|j: int| 0 <= j < pv.len() ==> #[trigger] items[j] == pv[j].0 + ": "@ + elem_text(self.nodes@, self.edges@, pv[j].1),
                s@ == s1 + join(items.subrange(0, i as int), ", "@),
            decreases ps@.len() - i,
        {
            push_sep(s, i, ", ");
            append(s, ps[i].0.as_str());
            append(s, ": ");
            self.push_element_text(s, &ps[i].1);
            proof {
                lemma_join_push(items.subrange(0, i as int), items[i as int], ", "@);
                assert(items.subrange(0, i as int).push(items[i as int]) =~= items.subrange(0, i as int + 1));
            }
            i = i + 1;
        }
        assert(items.subrange(0, ps@.len() as int) =~= items);
    
    }

    /// An element as plain text (see `elem_text`).
    pub fn format_element(&self, element: &GraphElement) -> (r: String)
        requires
            self.wf(),
        ensures
            r@ == elem_text(self.nodes@, self.edges@, element@),
    {
        let mut s = String::new();
        self.push_element_text(&mut s, element);
        assert(s@ =~= elem_text(self.nodes@, self.edges@, element@));
        s
    }
}

/// The texts of the elements, one by one.
pub proof fn lemma_elems_texts(nodes: Seq<Node>, edges: Seq<Edge>, es: Seq<ElemV>)
    ensures
        elems_texts(nodes, edges, es).len() == es.len(),
        forall|j: int| 0 <= j < es.len() ==> #[trigger] elems_texts(nodes, edges, es)[j] == elem_text(nodes, edges, es[j]),
    decreases es.len(),
{
    if es.len() > 0 {
        let t = es.subrange(0, es.len() - 1);
        lemma_elems_texts(nodes, edges, t);
        assert forall|j: int| 0 <= j < es.len() implies #[trigger] elems_texts(nodes, edges, es)[j] == elem_text(nodes, edges, es[j]) by {
            if j < es.len() - 1 {
                assert(t[j] == es[j]);
            }
        }
    }
}

/// The texts of the entries, one by one.
pub proof fn lemma_pairs_texts(nodes: Seq<Node>, edges: Seq<Edge>, ps: Seq<(Seq<char>, ElemV)>)
    ensures
        pairs_texts(nodes, edges, ps).len() == ps.len(),
        forall|j: int| 0 <= j < ps.len() ==> #[trigger] pairs_texts(nodes, edges, ps)[j] == ps[j].0 + ": "@ + elem_text(nodes, edges, ps[j].1),
    decreases ps.len(),
{
    if ps.len() > 0 {
        let t = ps.subrange(0, ps.len() - 1);
        lemma_pairs_texts(nodes, edges, t);
        assert forall|j: int| 0 <= j < ps.len() implies #[trigger] pairs_texts(nodes, edges, ps)[j] == ps[j].0 + ": "@ + elem_text(nodes, edges, ps[j].1) by {
            if j < ps.len() - 1 {
                assert(t[j] == ps[j]);
            }
        }
    }
}

} // verus!
