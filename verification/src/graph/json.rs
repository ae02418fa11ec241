use vstd::prelude::*;
use crate::edge::Edge;
use crate::graph::Graph;
use crate::graph::display::{join, lemma_join_push};
use crate::graph::element::{elem_pairs_view, elems_view, lemma_elem_pairs_view, lemma_elems_view, ElemV, GraphElement};
use crate::node::Node;
use crate::property::{number_text, push_number_text, PropV, PropertyMap, PropertyValue};
use crate::text::{append, chars_of, nat_text, push_char, push_usize};

verus! {

// ---------------------------------------------------------------------------------------------
// JSON text, laid out the way a pretty printer with two-space indentation lays it out.

/// The next level of nesting.
pub open spec fn next_depth(d: usize) -> usize {
    if d < usize::MAX { (d + 1) as usize } else { d }
}

/// The next level of nesting.
fn next_depth_exec(d: usize) -> (r: usize)
    ensures
        r == next_depth(d),
{
    if d < usize::MAX { d + 1 } else { d }
}

/// Two spaces for each level.
pub open spec fn ind(d: usize) -> Seq<char> {
    Seq::new(2 * (d as nat), |i: int| ' ')
}

/// A hexadecimal digit.
pub open spec fn hex_digit(d: u32) -> char {
    if d < 10 { (d + 48) as char } else { (d + 87) as char }
}

/// How a character is written inside a JSON string.
pub open spec fn json_escape_char(c: char) -> Seq<char> {
    if c == '"' {
        seq!['\\', '"']
    } else if c == '\\' {
        seq!['\\', '\\']
    } else if c == '\n' {
        seq!['\\', 'n']
    } else if c == '\r' {
        seq!['\\', 'r']
    } else if c == '\t' {
        seq!['\\', 't']
    } else if c == '\x08' {
        seq!['\\', 'b']
    } else if c == '\x0c' {
        seq!['\\', 'f']
    } else if (c as u32) < 32 {
        seq!['\\', 'u', '0', '0', hex_digit((c as u32) / 16), hex_digit((c as u32) % 16)]
    } else {
        seq![c]
    }
}

/// The characters of `s`, each escaped for JSON.
pub open spec fn json_escaped(s: Seq<char>) -> Seq<char>
    decreases s.len(),
{
    if s.len() == 0 {
        Seq::empty()
    } else {
        json_escaped(s.drop_last()) + json_escape_char(s.last())
    }
}

/// `s` as a JSON string.
pub open spec fn json_quoted(s: Seq<char>) -> Seq<char> {
    seq!['"'] + json_escaped(s) + seq!['"']
}

/// A JSON array at depth `d` of the texts of its members (each already laid out for depth
/// `d + 1`): `[]` when empty.
pub open spec fn json_array(items: Seq<Seq<char>>, d: usize) -> Seq<char> {
    if items.len() == 0 {
        "[]"@
    } else {
        "[\n"@ + join(items.map_values(|x: Seq<char>| ind(next_depth(d)) + x), ",\n"@) + "\n"@ + ind(d) + "]"@
    }
}

/// A JSON object at depth `d` of its members (`"key": value`, each value laid out for depth
/// `d + 1`): `{}` when empty.
pub open spec fn json_object(members: Seq<(Seq<char>, Seq<char>)>, d: usize) -> Seq<char> {
    if members.len() == 0 {
        "{}"@
    } else {
        "{\n"@ + join(members.map_values(|m: (Seq<char>, Seq<char>)| ind(next_depth(d)) + json_quoted(m.0) + ": "@ + m.1), ",\n"@)
            + "\n"@ + ind(d) + "}"@
    }
}

/// A property value as JSON.
pub open spec fn prop_json(v: PropV) -> Seq<char> {
    match v {
        PropV::Boolean(b) => if b { "true"@ } else { "false"@ },
        PropV::Number(n) => number_text(n),
        PropV::Text(s) => json_quoted(s),
    }
}

/// A list of ids as a JSON array at depth `d`.
pub open spec fn ids_json(ids: Seq<usize>, d: usize) -> Seq<char> {
    json_array(ids.map_values(|i: usize| nat_text(i as nat)), d)
}

/// Properties (in increasing order of names) as a JSON object at depth `d`.
pub open spec fn props_json(es: Seq<(Seq<char>, PropV)>, d: usize) -> Seq<char> {
    json_object(es.map_values(|e: (Seq<char>, PropV)| (e.0, prop_json(e.1))), d)
}

/// A node as JSON at depth `d`: its edges, labels and properties.
pub open spec fn node_json(n: Node, d: usize) -> Seq<char> {
    json_object(seq![
        ("edges"@, ids_json(n.edges@, next_depth(d))),
        ("labels"@, ids_json(n.labels@, next_depth(d))),
        ("properties"@, props_json(n.properties.ordered(), next_depth(d))),
    ], d)
}

/// An edge as JSON at depth `d`: its end, labels, properties and start.
pub open spec fn edge_json(e: Edge, d: usize) -> Seq<char> {
    json_object(seq![
        ("end"@, nat_text(e.end as nat)),
        ("labels"@, ids_json(e.labels@, next_depth(d))),
        ("properties"@, props_json(e.properties.ordered(), next_depth(d))),
        ("start"@, nat_text(e.start as nat)),
    ], d)
}

/// The node with id `id` as JSON, `null` when there is none.
pub open spec fn node_json_at(nodes: Seq<Node>, id: usize, d: usize) -> Seq<char> {
    if id < nodes.len() { node_json(nodes[id as int], d) } else { "null"@ }
}

/// The edge with id `id` as JSON, `null` when there is none.
pub open spec fn edge_json_at(edges: Seq<Edge>, id: usize, d: usize) -> Seq<char> {
    if id < edges.len() { edge_json(edges[id as int], d) } else { "null"@ }
}

/// An element as JSON at depth `d`.
pub open spec fn elem_json(nodes: Seq<Node>, edges: Seq<Edge>, e: ElemV, d: usize) -> Seq<char>
    decreases e, 0nat,
{
    match e {
        ElemV::Node(id) => node_json_at(nodes, id, d),
        ElemV::Edge(id) => edge_json_at(edges, id, d),
        ElemV::EdgeArray(ids) => json_array(ids.map_values(|id: usize| edge_json_at(edges, id, next_depth(d))), d),
        ElemV::Path(es) => json_array(elems_json(nodes, edges, es, next_depth(d)), d),
        ElemV::List(es) => json_array(elems_json(nodes, edges, es, next_depth(d)), d),
        ElemV::MapValue(ps) => json_object(pairs_json(nodes, edges, ps, next_depth(d)), d),
        ElemV::Number(n) => number_text(n),
        ElemV::Text(s) => json_quoted(s),
        ElemV::Boolean(b) => if b { "true"@ } else { "false"@ },
        ElemV::Null => "null"@,
    }
}

/// The elements as JSON at depth `d`.
pub open spec fn elems_json(nodes: Seq<Node>, edges: Seq<Edge>, es: Seq<ElemV>, d: usize) -> Seq<Seq<char>>
    decreases es, es.len(),
{
    if es.len() == 0 {
        Seq::empty()
    } else {
        elems_json(nodes, edges, es.subrange(0, es.len() - 1), d).push(elem_json(nodes, edges, es[es.len() - 1], d))
    }
}

/// The entries as JSON members, values at depth `d`.
pub open spec fn pairs_json(nodes: Seq<Node>, edges: Seq<Edge>, ps: Seq<(Seq<char>, ElemV)>, d: usize) -> Seq<(Seq<char>, Seq<char>)>
    decreases ps, ps.len(),
{
    if ps.len() == 0 {
        Seq::empty()
    } else {
        pairs_json(nodes, edges, ps.subrange(0, ps.len() - 1), d).push((ps[ps.len() - 1].0, elem_json(nodes, edges, ps[ps.len() - 1].1, d)))
    }
}

/// The JSON of the elements, one by one.
pub proof fn lemma_elems_json(nodes: Seq<Node>, edges: Seq<Edge>, es: Seq<ElemV>, d: usize)
    ensures
        elems_json(nodes, edges, es, d).len() == es.len(),
        forall|j: int| 0 <= j < es.len() ==> #[trigger] elems_json(nodes, edges, es, d)[j] == elem_json(nodes, edges, es[j], d),
    decreases es.len(),
{
    if es.len() > 0 {
        let t = es.subrange(0, es.len() - 1);
        lemma_elems_json(nodes, edges, t, d);
        assert forall|j: int| 0 <= j < es.len() implies #[trigger] elems_json(nodes, edges, es, d)[j] == elem_json(nodes, edges, es[j], d) by {
            if j < es.len() - 1 {
                assert(t[j] == es[j]);
            }
        }
    }
}

/// The JSON members of the entries, one by one.
pub proof fn lemma_pairs_json(nodes: Seq<Node>, edges: Seq<Edge>, ps: Seq<(Seq<char>, ElemV)>, d: usize)
    ensures
        pairs_json(nodes, edges, ps, d).len() == ps.len(),
        forall|j: int| 0 <= j < ps.len() ==> #[trigger] pairs_json(nodes, edges, ps, d)[j] == (ps[j].0, elem_json(nodes, edges, ps[j].1, d)),
    decreases ps.len(),
{
    if ps.len() > 0 {
        let t = ps.subrange(0, ps.len() - 1);
        lemma_pairs_json(nodes, edges, t, d);
        assert forall|j: int| 0 <= j < ps.len() implies #[trigger] pairs_json(nodes, edges, ps, d)[j] == (ps[j].0, elem_json(nodes, edges, ps[j].1, d)) by {
            if j < ps.len() - 1 {
                assert(t[j] == ps[j]);
            }
        }
    }
}

// ---------------------------------------------------------------------------------------------
// Writing JSON text.

/// A hexadecimal digit.
fn hex_digit_exec(d: u32) -> (c: char)
    requires
        d < 16,
    ensures
        c == hex_digit(d),
{
    let b = d as u8;
    if b < 10 { (b + 48) as char } else { (b + 87) as char }
}

/// Appends `t` as a JSON string (see `json_quoted`).
pub fn push_json_quoted(s: &mut String, t: &str)
    ensures
        final(s)@ == old(s)@ + json_quoted(t@),
{
    let cs = chars_of(t);
    push_char(s, '"');
    let ghost s1 = s@;
    let mut i: usize = 0;
    while i < cs.len()
        invariant
            i <= cs@.len(),
            cs@ == t@,
            s@ == s1 + json_escaped(cs@.subrange(0, i as int)),
        decreases cs@.len() - i,
    {
        let c = cs[i];
        let ghost before = s@;
        if c == '"' {
            append(s, "\\\"");
            proof { reveal_strlit("\\\""); }
        } else if c == '\\' {
            append(s, "\\\\");
            proof { reveal_strlit("\\\\"); }
        } else if c == '\n' {
            append(s, "\\n");
            proof { reveal_strlit("\\n"); }
        } else if c == '\r' {
            append(s, "\\r");
            proof { reveal_strlit("\\r"); }
        } else if c == '\t' {
            append(s, "\\t");
            proof { reveal_strlit("\\t"); }
        } else if c == '\x08' {
            append(s, "\\b");
            proof { reveal_strlit("\\b"); }
        } else if c == '\x0c' {
            append(s, "\\f");
            proof { reveal_strlit("\\f"); }
        } else if (c as u32) < 32 {
            append(s, "\\u00");
            proof { reveal_strlit("\\u00"); }
            let hi = hex_digit_exec((c as u32) / 16);
            let lo = hex_digit_exec((c as u32) % 16);
            push_char(s, hi);
            push_char(s, lo);
        } else {
            push_char(s, c);
        }
        proof {
            let pre1 = cs@.subrange(0, i as int + 1);
            assert(pre1.drop_last() =~= cs@.subrange(0, i as int));
            assert(pre1.last() == c);
            assert(s@ =~= before + json_escape_char(c));
            assert(s@ =~= s1 + json_escaped(pre1));
        }
        i = i + 1;
    }
    push_char(s, '"');
    assert(cs@.subrange(0, cs@.len() as int) =~= cs@);
    assert(s@ =~= old(s)@ + json_quoted(t@));
}

/// Appends the indentation for depth `d`.
fn push_ind(s: &mut String, d: usize)
    ensures
        final(s)@ == old(s)@ + ind(d),
{
    let mut i: usize = 0;
    while i < d
        invariant
            i <= d,
            s@ == old(s)@ + ind(i),
        decreases d - i,
    {
        push_char(s, ' ');
        push_char(s, ' ');
        assert(ind(i) + seq![' ', ' '] =~= ind((i + 1) as usize));
        i = i + 1;
    }
}

/// Joining the items of a JSON array, one more.
proof fn lemma_array_step(items: Seq<Seq<char>>, i: int, d: usize)
    requires
        0 <= i < items.len(),
    ensures
        join(items.subrange(0, i + 1).map_values(|x: Seq<char>| ind(next_depth(d)) + x), ",\n"@)
            == if i == 0 { ind(next_depth(d)) + items[i] } else {
                join(items.subrange(0, i).map_values(|x: Seq<char>| ind(next_depth(d)) + x), ",\n"@) + ",\n"@ + ind(next_depth(d)) + items[i]
            },
{
    let f = |x: Seq<char>| ind(next_depth(d)) + x;
    assert(items.subrange(0, i + 1).map_values(f) =~= items.subrange(0, i).map_values(f).push(f(items[i])));
    lemma_join_push(items.subrange(0, i).map_values(f), f(items[i]), ",\n"@);
    if i > 0 {
        assert(join(items.subrange(0, i).map_values(f), ",\n"@) + ",\n"@ + f(items[i])
            =~= join(items.subrange(0, i).map_values(f), ",\n"@) + ",\n"@ + ind(next_depth(d)) + items[i]);
    }
}

/// Joining the members of a JSON object, one more.
proof fn lemma_object_step(ms: Seq<(Seq<char>, Seq<char>)>, i: int, d: usize)
    requires
        0 <= i < ms.len(),
    ensures
        join(ms.subrange(0, i + 1).map_values(|m: (Seq<char>, Seq<char>)| ind(next_depth(d)) + json_quoted(m.0) + ": "@ + m.1), ",\n"@)
            == if i == 0 { ind(next_depth(d)) + json_quoted(ms[i].0) + ": "@ + ms[i].1 } else {
                join(ms.subrange(0, i).map_values(|m: (Seq<char>, Seq<char>)| ind(next_depth(d)) + json_quoted(m.0) + ": "@ + m.1), ",\n"@)
                    + ",\n"@ + ind(next_depth(d)) + json_quoted(ms[i].0) + ": "@ + ms[i].1
            },
{
    let f = |m: (Seq<char>, Seq<char>)| ind(next_depth(d)) + json_quoted(m.0) + ": "@ + m.1;
    assert(ms.subrange(0, i + 1).map_values(f) =~= ms.subrange(0, i).map_values(f).push(f(ms[i])));
    lemma_join_push(ms.subrange(0, i).map_values(f), f(ms[i]), ",\n"@);
    if i > 0 {
        assert(join(ms.subrange(0, i).map_values(f), ",\n"@) + ",\n"@ + f(ms[i])
            =~= join(ms.subrange(0, i).map_values(f), ",\n"@) + ",\n"@ + ind(next_depth(d)) + json_quoted(ms[i].0) + ": "@ + ms[i].1);
    }
}

/// Writing member `i` of an object keeps the text an open object of the first members.
pub proof fn lemma_object_loop(base: Seq<char>, ms: Seq<(Seq<char>, Seq<char>)>, i: int, d: usize, before: Seq<char>, after: Seq<char>)
    requires
        0 <= i < ms.len(),
        i > 0 ==> before == base + "{\n"@ + join(ms.subrange(0, i).map_values(|m: (Seq<char>, Seq<char>)| ind(next_depth(d)) + json_quoted(m.0) + ": "@ + m.1), ",\n"@),
        i == 0 ==> before == base,
        after == before + (if i == 0 { "{\n"@ } else { ",\n"@ }) + ind(next_depth(d)) + json_quoted(ms[i].0) + ": "@ + ms[i].1,
    ensures
        after == base + "{\n"@ + join(ms.subrange(0, i + 1).map_values(|m: (Seq<char>, Seq<char>)| ind(next_depth(d)) + json_quoted(m.0) + ": "@ + m.1), ",\n"@),
{
    lemma_object_step(ms, i, d);
    let f = |m: (Seq<char>, Seq<char>)| ind(next_depth(d)) + json_quoted(m.0) + ": "@ + m.1;
    if i == 0 {
        assert(after =~= base + "{\n"@ + join(ms.subrange(0, 1).map_values(f), ",\n"@));
    } else {
        assert(after =~= base + "{\n"@ + join(ms.subrange(0, i + 1).map_values(f), ",\n"@));
    }
}

/// Writing item `i` of an array keeps the text an open array of the first items.
pub proof fn lemma_array_loop(base: Seq<char>, items: Seq<Seq<char>>, i: int, d: usize, before: Seq<char>, after: Seq<char>)
    requires
        0 <= i < items.len(),
        i > 0 ==> before == base + "[\n"@ + join(items.subrange(0, i).map_values(|x: Seq<char>| ind(next_depth(d)) + x), ",\n"@),
        i == 0 ==> before == base,
        after == before + (if i == 0 { "[\n"@ } else { ",\n"@ }) + ind(next_depth(d)) + items[i],
    ensures
        after == base + "[\n"@ + join(items.subrange(0, i + 1).map_values(|x: Seq<char>| ind(next_depth(d)) + x), ",\n"@),
{
    lemma_array_step(items, i, d);
    let f = |x: Seq<char>| ind(next_depth(d)) + x;
    if i == 0 {
        assert(after =~= base + "[\n"@ + join(items.subrange(0, 1).map_values(f), ",\n"@));
    } else {
        assert(after =~= base + "[\n"@ + join(items.subrange(0, i + 1).map_values(f), ",\n"@));
    }
}

/// Appends the separator before item `i` of an array or object at depth `d`, and the
/// indentation of the item.
pub(crate) fn push_item_start(s: &mut String, i: usize, d: usize)
    ensures
        final(s)@ == old(s)@ + (if i == 0 { "[\n"@ } else { ",\n"@ }) + ind(next_depth(d)),
{
    if i == 0 { append(s, "[\n"); } else { append(s, ",\n"); }
    push_ind(s, next_depth_exec(d));
}

/// Appends the separator before member `i` of an object at depth `d`, the indentation and the
/// key.
pub(crate) fn push_member_start(s: &mut String, i: usize, d: usize, key: &str)
    ensures
        final(s)@ == old(s)@ + (if i == 0 { "{\n"@ } else { ",\n"@ }) + ind(next_depth(d)) + json_quoted(key@) + ": "@,
{
    if i == 0 { append(s, "{\n"); } else { append(s, ",\n"); }
    push_ind(s, next_depth_exec(d));
    push_json_quoted(s, key);
    append(s, ": ");
    assert(s@ =~= old(s)@ + (if i == 0 { "{\n"@ } else { ",\n"@ }) + ind(next_depth(d)) + json_quoted(key@) + ": "@);
}

/// Appends the end of a non-empty array at depth `d`.
pub(crate) fn push_array_end(s: &mut String, d: usize)
    ensures
        final(s)@ == old(s)@ + "\n"@ + ind(d) + "]"@,
{
    append(s, "\n");
    push_ind(s, d);
    append(s, "]");
    assert(s@ =~= old(s)@ + "\n"@ + ind(d) + "]"@);
}

/// Appends the end of a non-empty object at depth `d`.
pub(crate) fn push_object_end(s: &mut String, d: usize)
    ensures
        final(s)@ == old(s)@ + "\n"@ + ind(d) + "}"@,
{
    append(s, "\n");
    push_ind(s, d);
    append(s, "}");
    assert(s@ =~= old(s)@ + "\n"@ + ind(d) + "}"@);
}

/// Appends a list of ids as a JSON array at depth `d`.
fn push_ids_json(s: &mut String, ids: &Vec<usize>, d: usize)
    ensures
        final(s)@ == old(s)@ + ids_json(ids@, d),
{
    let ghost items = ids@.map_values(|i: usize| nat_text(i as nat));
    let ghost f = |x: Seq<char>| ind(next_depth(d)) + x;
    if ids.len() == 0 {
        append(s, "[]");
        return;
    }
    let mut i: usize = 0;
    while i < ids.len()
        invariant
            0 < ids@.len(),
            i <= ids@.len(),
            items == ids@.map_values(|i: usize| nat_text(i as nat)),
            f == (|x: Seq<char>| ind(next_depth(d)) + x),
            i > 0 ==> s@ == old(s)@ + "[\n"@ + join(items.subrange(0, i as int).map_values(f), ",\n"@),
            i == 0 ==> s@ == old(s)@,
        decreases ids@.len() - i,
    {
        let ghost before = s@;
        push_item_start(s, i, d);
        push_usize(s, ids[i]);
        proof {
            lemma_array_loop(old(s)@, items, i as int, d, before, s@);
        }
        i = i + 1;
    }
    push_array_end(s, d);
    assert(items.subrange(0, ids@.len() as int) =~= items);
    assert(s@ =~= old(s)@ + ids_json(ids@, d));
}

/// Appends a property value as JSON.
fn push_prop_json(s: &mut String, v: &PropertyValue)
    requires
        v.wf(),
    ensures
        final(s)@ == old(s)@ + prop_json(v@),
{
    match v {
        PropertyValue::Boolean(b) => { if *b { append(s, "true") } else { append(s, "false") } },
        PropertyValue::Number(n) => push_number_text(s, n),
        PropertyValue::String(t) => push_json_quoted(s, t.as_str()),
    }
}

/// Appends properties as a JSON object at depth `d`.
fn push_props_json(s: &mut String, m: &PropertyMap, d: usize)
    requires
        m.wf(),
    ensures
        final(s)@ == old(s)@ + props_json(m.ordered(), d),
{
    let ghost es = m.ordered();
    let ghost ms = es.map_values(|e: (Seq<char>, PropV)| (e.0, prop_json(e.1)));
    let ghost f = |m: (Seq<char>, Seq<char>)| ind(next_depth(d)) + json_quoted(m.0) + ": "@ + m.1;
    let n = m.len();
    if n == 0 {
        append(s, "{}");
        return;
    }
    let mut i: usize = 0;
    while i < n
        invariant
            m.wf(),
            es == m.ordered(),
            n == es.len(),
            0 < n,
            i <= n,
            ms == es.map_values(|e: (Seq<char>, PropV)| (e.0, prop_json(e.1))),
            f == (|m: (Seq<char>, Seq<char>)| ind(next_depth(d)) + json_quoted(m.0) + ": "@ + m.1),
            i > 0 ==> s@ == old(s)@ + "{\n"@ + join(ms.subrange(0, i as int).map_values(f), ",\n"@),
            i == 0 ==> s@ == old(s)@,
        decreases n - i,
    {
        let (k, v) = m.entry(i);
        let ghost before = s@;
        push_member_start(s, i, d, k.as_str());
        push_prop_json(s, v);
        proof {
            assert(ms[i as int] == (k@, prop_json(v@)));
            lemma_object_loop(old(s)@, ms, i as int, d, before, s@);
        }
        i = i + 1;
    }
    push_object_end(s, d);
    assert(ms.subrange(0, n as int) =~= ms);
    assert(s@ =~= old(s)@ + props_json(m.ordered(), d));
}

/// Appends a node as JSON at depth `d` (see `node_json`).
#[verifier::spinoff_prover]
#[verifier::rlimit(30)]
fn push_node_json(s: &mut String, n: &Node, d: usize)
    requires
        n.properties.wf(),
    ensures
        final(s)@ == old(s)@ + node_json(*n, d),
{
    let nd = next_depth_exec(d);
    let ghost ms = seq![
        ("edges"@, ids_json(n.edges@, nd)),
        ("labels"@, ids_json(n.labels@, nd)),
        ("properties"@, props_json(n.properties.ordered(), nd)),
    ];
    let ghost b0 = s@;
    push_member_start(s, 0, d, "edges");
    push_ids_json(s, &n.edges, nd);
    proof { lemma_object_loop(old(s)@, ms, 0, d, b0, s@); }
    let ghost b1 = s@;
    push_member_start(s, 1, d, "labels");
    push_ids_json(s, &n.labels, nd);
    proof { lemma_object_loop(old(s)@, ms, 1, d, b1, s@); }
    let ghost b2 = s@;
    push_member_start(s, 2, d, "properties");
    push_props_json(s, &n.properties, nd);
    proof { lemma_object_loop(old(s)@, ms, 2, d, b2, s@); }
    push_object_end(s, d);
    assert(ms.subrange(0, 3) =~= ms);
    assert(s@ =~= old(s)@ + node_json(*n, d));
}

/// Appends an edge as JSON at depth `d` (see `edge_json`).
#[verifier::spinoff_prover]
#[verifier::rlimit(30)]
fn push_edge_json(s: &mut String, e: &Edge, d: usize)
    requires
        e.properties.wf(),
    ensures
        final(s)@ == old(s)@ + edge_json(*e, d),
{
    let nd = next_depth_exec(d);
    let ghost ms = seq![
        ("end"@, nat_text(e.end as nat)),
        ("labels"@, ids_json(e.labels@, nd)),
        ("properties"@, props_json(e.properties.ordered(), nd)),
        ("start"@, nat_text(e.start as nat)),
    ];
    let ghost b0 = s@;
    push_member_start(s, 0, d, "end");
    push_usize(s, e.end);
    proof { lemma_object_loop(old(s)@, ms, 0, d, b0, s@); }
    let ghost b1 = s@;
    push_member_start(s, 1, d, "labels");
    push_ids_json(s, &e.labels, nd);
    proof { lemma_object_loop(old(s)@, ms, 1, d, b1, s@); }
    let ghost b2 = s@;
    push_member_start(s, 2, d, "properties");
    push_props_json(s, &e.properties, nd);
    proof { lemma_object_loop(old(s)@, ms, 2, d, b2, s@); }
    let ghost b3 = s@;
    push_member_start(s, 3, d, "start");
    push_usize(s, e.start);
    proof { lemma_object_loop(old(s)@, ms, 3, d, b3, s@); }
    push_object_end(s, d);
    assert(ms.subrange(0, 4) =~= ms);
    assert(s@ =~= old(s)@ + edge_json(*e, d));
}

impl Graph {
    /// Appends the node with id `id` as JSON (see `node_json_at`).
    fn push_node_json_at(&self, s: &mut String, id: usize, d: usize)
        requires
            self.wf(),
        ensures
            final(s)@ == old(s)@ + node_json_at(self.nodes@, id, d),
    {
        if id < self.nodes.len() {
            assert(self.nodes@[id as int].properties.wf());
            push_node_json(s, &self.nodes[id], d);
        } else {
            append(s, "null");
        }
    }

    /// Appends the edge with id `id` as JSON (see `edge_json_at`).
    fn push_edge_json_at(&self, s: &mut String, id: usize, d: usize)
        requires
            self.wf(),
        ensures
            final(s)@ == old(s)@ + edge_json_at(self.edges@, id, d),
    {
        if id < self.edges.len() {
            assert(self.edges@[id as int].properties.wf());
            push_edge_json(s, &self.edges[id], d);
        } else {
            append(s, "null");
        }
    }

    /// Appends an element as JSON at depth `d` (see `elem_json`).
    pub fn push_element_json(&self, s: &mut String, e: &GraphElement, d: usize)
        requires
            self.wf(),
        ensures
            final(s)@ == old(s)@ + elem_json(self.nodes@, self.edges@, e@, d),
        decreases e,
    {
        match e {
            GraphElement::Node(id) => self.push_node_json_at(s, *id, d),
            GraphElement::Edge(id) => self.push_edge_json_at(s, *id, d),
            GraphElement::EdgeArray(ids) => self.push_edges_json(s, ids, d),
            GraphElement::Path(es) | GraphElement::List(es) => {
                proof { lemma_elems_view(es@); }
                self.push_elems_json(s, es, d);
            },
            GraphElement::MapValue(ps) => {
                proof { lemma_elem_pairs_view(ps@); }
                self.push_pairs_json(s, ps, d);
            },
            GraphElement::Number(n) => push_json_number(s, n),
            GraphElement::String(t) => push_json_quoted(s, t.as_str()),
            GraphElement::Boolean(b) => { if *b { append(s, "true") } else { append(s, "false") } },
            GraphElement::Null => append(s, "null"),
        }
    }

    /// Appends a list of edges as a JSON array at depth `d`.
    fn push_edges_json(&self, s: &mut String, ids: &Vec<usize>, d: usize)
        requires
            self.wf(),
        ensures
            final(s)@ == old(s)@ + json_array(ids@.map_values(|id: usize| edge_json_at(self.edges@, id, next_depth(d))), d),
    {
        let ghost items = ids@.map_values(|id: usize| edge_json_at(self.edges@, id, next_depth(d)));
        if ids.len() == 0 {
            append(s, "[]");
            return;
        }
        let nd = next_depth_exec(d);
        let mut i: usize = 0;
        while i < ids.len()
            invariant
                self.wf(),
                0 < ids@.len(),
                i <= ids@.len(),
                nd == next_depth(d),
                items == ids@.map_values(|id: usize| edge_json_at(self.edges@, id, next_depth(d))),
                i > 0 ==> s@ == old(s)@ + "[\n"@ + join(items.subrange(0, i as int).map_values(|x: Seq<char>| ind(next_depth(d)) + x), ",\n"@),
                i == 0 ==> s@ == old(s)@,
            decreases ids@.len() - i,
        {
            let ghost before = s@;
            push_item_start(s, i, d);
            self.push_edge_json_at(s, ids[i], nd);
            proof { lemma_array_loop(old(s)@, items, i as int, d, before, s@); }
            i = i + 1;
        }
        push_array_end(s, d);
        assert(items.subrange(0, ids@.len() as int) =~= items);
    }

    /// Appends elements as a JSON array at depth `d`.
    fn push_elems_json(&self, s: &mut String, es: &Vec<GraphElement>, d: usize)
        requires
            self.wf(),
        ensures
            final(s)@ == old(s)@ + json_array(elems_json(self.nodes@, self.edges@, elems_view(es@), next_depth(d)), d),
        decreases es@,
    {
        let ghost ev = elems_view(es@);
        let ghost items = elems_json(self.nodes@, self.edges@, ev, next_depth(d));
        proof { lemma_elems_view(es@); lemma_elems_json(self.nodes@, self.edges@, ev, next_depth(d)); }
        if es.len() == 0 {
            append(s, "[]");
            return;
        }
        let nd = next_depth_exec(d);
        let mut i: usize = 0;
        while i < es.len()
            invariant
                self.wf(),
                0 < es@.len(),
                i <= es@.len(),
                nd == next_depth(d),
                ev == elems_view(es@),
                ev.len() == es@.len(),
                forall|j: int| 0 <= j < es@.len() ==> #[trigger] ev[j] == es@[j]@,
                items == elems_json(self.nodes@, self.edges@, ev, next_depth(d)),
                items.len() == ev.len(),
                forall|j: int| 0 <= j < ev.len() ==> #[trigger] items[j] == elem_json(self.nodes@, self.edges@, ev[j], next_depth(d)),
                i > 0 ==> s@ == old(s)@ + "[\n"@ + join(items.subrange(0, i as int).map_values(|x: Seq<char>| ind(next_depth(d)) + x), ",\n"@),
                i == 0 ==> s@ == old(s)@,
            decreases es@.len() - i,
        {
            let ghost before = s@;
            push_item_start(s, i, d);
            self.push_element_json(s, &es[i], nd);
            proof { lemma_array_loop(old(s)@, items, i as int, d, before, s@); }
            i = i + 1;
        }
        push_array_end(s, d);
        assert(items.subrange(0, es@.len() as int) =~= items);
    }

    /// Appends entries as a JSON object at depth `d`.
    fn push_pairs_json(&self, s: &mut String, ps: &Vec<(String, GraphElement)>, d: usize)
        requires
            self.wf(),
        ensures
            final(s)@ == old(s)@ + json_object(pairs_json(self.nodes@, self.edges@, elem_pairs_view(ps@), next_depth(d)), d),
        decreases ps@,
    {
        let ghost pv = elem_pairs_view(ps@);
        let ghost ms = pairs_json(self.nodes@, self.edges@, pv, next_depth(d));
        proof { lemma_elem_pairs_view(ps@); lemma_pairs_json(self.nodes@, self.edges@, pv, next_depth(d)); }
        if ps.len() == 0 {
            append(s, "{}");
            return;
        }
        let nd = next_depth_exec(d);
        let mut i: usize = 0;
        while i < ps.len()
            invariant
                self.wf(),
                0 < ps@.len(),
                i <= ps@.len(),
                nd == next_depth(d),
                pv == elem_pairs_view(ps@),
                pv.len() == ps@.len(),
                forall|j: int| 0 <= j < ps@.len() ==> #[trigger] pv[j] == (ps@[j].0@, ps@[j].1@),
                ms == pairs_json(self.nodes@, self.edges@, pv, next_depth(d)),
                ms.len() == pv.len(),
                forall|j: int| 0 <= j < pv.len() ==> #[trigger] ms[j] == (pv[j].0, elem_json(self.nodes@, self.edges@, pv[j].1, next_depth(d))),
                i > 0 ==> s@ == old(s)@ + "{\n"@ + join(ms.subrange(0, i as int).map_values(|m: (Seq<char>, Seq<char>)| ind(next_depth(d)) + json_quoted(m.0) + ": "@ + m.1), ",\n"@),
                i == 0 ==> s@ == old(s)@,
            decreases ps@.len() - i,
        {
            let ghost before = s@;
            push_member_start(s, i, d, ps[i].0.as_str());
            self.push_element_json(s, &ps[i].1, nd);
            proof { lemma_object_loop(old(s)@, ms, i as int, d, before, s@); }
            i = i + 1;
        }
        push_object_end(s, d);
        assert(ms.subrange(0, ps@.len() as int) =~= ms);
    }
}

/// Appends a number as JSON.
fn push_json_number(s: &mut String, n: &crate::property::Number)
    ensures
        final(s)@ == old(s)@ + number_text(n@),
{
    crate::property::push_number_text(s, n);
}

} // verus!
