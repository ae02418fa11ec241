use vstd::prelude::*;
use crate::property::{NumV, Number, PropV, PropertyValue};

verus! {

/// A value bound to a variable while a query runs.
#[derive(Debug)]
pub enum GraphElement {
    Node(usize),
    Edge(usize),
    EdgeArray(Vec<usize>),
    Path(Vec<GraphElement>),
    List(Vec<GraphElement>),
    MapValue(Vec<(String, GraphElement)>),
    Number(Number),
    String(String),
    Boolean(bool),
    Null,
}

/// The mathematical form of a graph element.
pub enum ElemV {
    Node(usize),
    Edge(usize),
    EdgeArray(Seq<usize>),
    Path(Seq<ElemV>),
    List(Seq<ElemV>),
    MapValue(Seq<(Seq<char>, ElemV)>),
    Number(NumV),
    Text(Seq<char>),
    Boolean(bool),
    Null,
}

impl View for GraphElement {
    type V = ElemV;

    open spec fn view(&self) -> ElemV
        decreases self,
    {
        match self {
            GraphElement::Node(n) => ElemV::Node(*n),
            GraphElement::Edge(e) => ElemV::Edge(*e),
            GraphElement::EdgeArray(es) => ElemV::EdgeArray(es@),
            GraphElement::Path(es) => ElemV::Path(elems_view(es@)),
            GraphElement::List(es) => ElemV::List(elems_view(es@)),
            GraphElement::MapValue(ps) => ElemV::MapValue(elem_pairs_view(ps@)),
            GraphElement::Number(n) => ElemV::Number(n@),
            GraphElement::String(s) => ElemV::Text(s@),
            GraphElement::Boolean(b) => ElemV::Boolean(*b),
            GraphElement::Null => ElemV::Null,
        }
    }
}

pub open spec fn elems_view(es: Seq<GraphElement>) -> Seq<ElemV>
    decreases es,
{
    if es.len() == 0 {
        Seq::empty()
    } else {
        elems_view(es.subrange(0, es.len() - 1)).push(es[es.len() - 1]@)
    }
}

pub open spec fn elem_pairs_view(ps: Seq<(String, GraphElement)>) -> Seq<(Seq<char>, ElemV)>
    decreases ps,
{
    if ps.len() == 0 {
        Seq::empty()
    } else {
        elem_pairs_view(ps.subrange(0, ps.len() - 1)).push((ps[ps.len() - 1].0@, ps[ps.len() - 1].1@))
    }
}

/// The view of a list of elements, element by element.
pub proof fn lemma_elems_view(es: Seq<GraphElement>)
    ensures
        elems_view(es).len() == es.len(),
        forall|i: int| 0 <= i < es.len() ==> #[trigger] elems_view(es)[i] == es[i]@,
    decreases es.len(),
{
    if es.len() > 0 {
        let t = es.subrange(0, es.len() - 1);
        lemma_elems_view(t);
        assert(elems_view(es) == elems_view(t).push(es[es.len() - 1]@));
        assert forall|i: int| 0 <= i < es.len() implies #[trigger] elems_view(es)[i] == es[i]@ by {
            if i < es.len() - 1 {
                assert(t[i] == es[i]);
            }
        }
    }
}

/// The view of a list of named elements, pair by pair.
pub proof fn lemma_elem_pairs_view(ps: Seq<(String, GraphElement)>)
    ensures
        elem_pairs_view(ps).len() == ps.len(),
        forall|i: int| 0 <= i < ps.len() ==> #[trigger] elem_pairs_view(ps)[i] == (ps[i].0@, ps[i].1@),
    decreases ps.len(),
{
    if ps.len() > 0 {
        let t = ps.subrange(0, ps.len() - 1);
        lemma_elem_pairs_view(t);
        assert(elem_pairs_view(ps) == elem_pairs_view(t).push((ps[ps.len() - 1].0@, ps[ps.len() - 1].1@)));
        assert forall|i: int| 0 <= i < ps.len() implies #[trigger] elem_pairs_view(ps)[i] == (ps[i].0@, ps[i].1@) by {
            if i < ps.len() - 1 {
                assert(t[i] == ps[i]);
            }
        }
    }
}

/// Lists of elements with equal views element by element have equal views.
pub proof fn lemma_elems_view_eq(a: Seq<GraphElement>, b: Seq<GraphElement>)
    requires
        a.len() == b.len(),
        forall|i: int| 0 <= i < a.len() ==> #[trigger] a[i]@ == b[i]@,
    ensures
        elems_view(a) == elems_view(b),
{
    lemma_elems_view(a);
    lemma_elems_view(b);
    assert(elems_view(a) =~= elems_view(b));
}

/// Lists of named elements with equal views pair by pair have equal views.
pub proof fn lemma_elem_pairs_view_eq(a: Seq<(String, GraphElement)>, b: Seq<(String, GraphElement)>)
    requires
        a.len() == b.len(),
        forall|i: int| 0 <= i < a.len() ==> #[trigger] a[i].0@ == b[i].0@ && a[i].1@ == b[i].1@,
    ensures
        elem_pairs_view(a) == elem_pairs_view(b),
{
    lemma_elem_pairs_view(a);
    lemma_elem_pairs_view(b);
    assert(elem_pairs_view(a) =~= elem_pairs_view(b));
}

/// The element a property value reads as.
pub open spec fn prop_elem(v: PropV) -> ElemV {
    match v {
        PropV::Boolean(b) => ElemV::Boolean(b),
        PropV::Number(n) => ElemV::Number(n),
        PropV::Text(s) => ElemV::Text(s),
    }
}

impl GraphElement {
    /// A copy of the element.
    pub fn copy(&self) -> (r: GraphElement)
        ensures
            r@ == self@,
        decreases self,
    {
        match self {
            GraphElement::Node(n) => GraphElement::Node(*n),
            GraphElement::Edge(e) => GraphElement::Edge(*e),
            GraphElement::EdgeArray(es) => GraphElement::EdgeArray(crate::graph::copy_ids(es)),
            GraphElement::Path(es) => GraphElement::Path(copy_elems(es)),
            GraphElement::List(es) => GraphElement::List(copy_elems(es)),
            GraphElement::MapValue(ps) => GraphElement::MapValue(copy_pairs(ps)),
            GraphElement::Number(n) => GraphElement::Number(n.copy()),
            GraphElement::String(s) => GraphElement::String(crate::text::copy_string(s)),
            GraphElement::Boolean(b) => GraphElement::Boolean(*b),
            GraphElement::Null => GraphElement::Null,
        }
    }

    /// The two elements are equal (same kind, same content).
    pub fn equals(&self, other: &GraphElement) -> (r: bool)
        ensures
            r == (self@ == other@),
        decreases self,
    {
        match (self, other) {
            (GraphElement::Node(a), GraphElement::Node(b)) => *a == *b,
            (GraphElement::Edge(a), GraphElement::Edge(b)) => *a == *b,
            (GraphElement::EdgeArray(a), GraphElement::EdgeArray(b)) => ids_equal(a, b),
            (GraphElement::Path(a), GraphElement::Path(b)) => elems_equal(a, b),
            (GraphElement::List(a), GraphElement::List(b)) => elems_equal(a, b),
            (GraphElement::MapValue(a), GraphElement::MapValue(b)) => pairs_equal(a, b),
            (GraphElement::Number(a), GraphElement::Number(b)) => a.equals(b),
            (GraphElement::String(a), GraphElement::String(b)) => crate::keyed::str_eq(a.as_str(), b.as_str()),
            (GraphElement::Boolean(a), GraphElement::Boolean(b)) => *a == *b,
            (GraphElement::Null, GraphElement::Null) => true,
            _ => false,
        }
    }
}

/// A copy of a list of elements.
pub fn copy_elems(es: &Vec<GraphElement>) -> (r: Vec<GraphElement>)
    ensures
        elems_view(r@) == elems_view(es@),
    decreases es@,
{
    let mut out: Vec<GraphElement> = Vec::new();
    let mut i: usize = 0;
    while i < es.len()
        invariant
            i <= es@.len(),
            out@.len() == i,
            forall|j: int| 0 <= j < i ==> #[trigger] out@[j]@ == es@[j]@,
        decreases es@.len() - i,
    {
        out.push(es[i].copy());
        i = i + 1;
    }
    proof { lemma_elems_view_eq(out@, es@); }
    out
}

/// Pair `j` of the two lists has equal name and equal element.
pub open spec fn same_pair(a: Seq<(String, GraphElement)>, b: Seq<(String, GraphElement)>, j: int) -> bool {
    a[j].0@ == b[j].0@ && a[j].1@ == b[j].1@
}

/// A copy of a list of named elements.
pub fn copy_pairs(ps: &Vec<(String, GraphElement)>) -> (r: Vec<(String, GraphElement)>)
    ensures
        elem_pairs_view(r@) == elem_pairs_view(ps@),
    decreases ps@,
{
    let mut out: Vec<(String, GraphElement)> = Vec::new();
    let mut i: usize = 0;
    while i < ps.len()
        invariant
            i <= ps@.len(),
            out@.len() == i,
            forall|j: int| 0 <= j < i ==> #[trigger] same_pair(out@, ps@, j),
        decreases ps@.len() - i,
    {
        assert(decreases_to!(ps@ => ps@[i as int]));
        let c = ps[i].1.copy();
        let ghost prev = out@;
        out.push((crate::text::copy_string(&ps[i].0), c));
        assert forall|j: int| 0 <= j < i + 1 implies #[trigger] same_pair(out@, ps@, j) by {
            if j < i {
                assert(out@[j] == prev[j]);
                assert(same_pair(prev, ps@, j));
            }
        }
        i = i + 1;
    }
    proof {
        assert forall|j: int| 0 <= j < out@.len() implies #[trigger] out@[j].0@ == ps@[j].0@ && out@[j].1@ == ps@[j].1@ by {
            assert(same_pair(out@, ps@, j));
        }
        lemma_elem_pairs_view_eq(out@, ps@);
    }
    out
}

/// The two lists of named elements are equal pair by pair.
fn pairs_equal(a: &Vec<(String, GraphElement)>, b: &Vec<(String, GraphElement)>) -> (r: bool)
    ensures
        r == (elem_pairs_view(a@) == elem_pairs_view(b@)),
    decreases a@,
{
    proof {
        lemma_elem_pairs_view(a@);
        lemma_elem_pairs_view(b@);
    }
    if a.len() != b.len() {
        return false;
    }
    let mut i: usize = 0;
    while i < a.len()
        invariant
            a@.len() == b@.len(),
            i <= a@.len(),
            forall|j: int| 0 <= j < i ==> #[trigger] same_pair(a@, b@, j),
        decreases a@.len() - i,
    {
        assert(decreases_to!(a@ => a@[i as int]));
        let same_key = crate::keyed::str_eq(a[i].0.as_str(), b[i].0.as_str());
        if !same_key {
            proof {
                lemma_elem_pairs_view(a@);
                lemma_elem_pairs_view(b@);
                assert(elem_pairs_view(a@)[i as int] != elem_pairs_view(b@)[i as int]);
            }
            return false;
        }
        let same_value = a[i].1.equals(&b[i].1);
        if !same_value {
            proof {
                lemma_elem_pairs_view(a@);
                lemma_elem_pairs_view(b@);
                assert(elem_pairs_view(a@)[i as int] != elem_pairs_view(b@)[i as int]);
            }
            return false;
        }
        assert(same_pair(a@, b@, i as int));
        i = i + 1;
    }
    proof {
        assert forall|j: int| 0 <= j < a@.len() implies #[trigger] a@[j].0@ == b@[j].0@ && a@[j].1@ == b@[j].1@ by {
            assert(same_pair(a@, b@, j));
        }
        lemma_elem_pairs_view_eq(a@, b@);
    }
    true
}

/// The two lists of ids are equal.
pub fn ids_equal(a: &Vec<usize>, b: &Vec<usize>) -> (r: bool)
    ensures
        r == (a@ == b@),
{
    if a.len() != b.len() {
        return false;
    }
    let mut i: usize = 0;
    while i < a.len()
        invariant
            a@.len() == b@.len(),
            i <= a@.len(),
            forall|j: int| 0 <= j < i ==> a@[j] == b@[j],
        decreases a@.len() - i,
    {
        if a[i] != b[i] {
            return false;
        }
        i = i + 1;
    }
    assert(a@ =~= b@);
    true
}

/// The two lists of elements are equal element by element.
fn elems_equal(a: &Vec<GraphElement>, b: &Vec<GraphElement>) -> (r: bool)
    ensures
        r == (elems_view(a@) == elems_view(b@)),
    decreases a@,
{
    proof {
        lemma_elems_view(a@);
        lemma_elems_view(b@);
    }
    if a.len() != b.len() {
        return false;
    }
    let mut i: usize = 0;
    while i < a.len()
        invariant
            a@.len() == b@.len(),
            i <= a@.len(),
            forall|j: int| 0 <= j < i ==> #[trigger] a@[j]@ == b@[j]@,
        decreases a@.len() - i,
    {
        if !a[i].equals(&b[i]) {
            proof {
                lemma_elems_view(a@);
                lemma_elems_view(b@);
                assert(elems_view(a@)[i as int] != elems_view(b@)[i as int]);
            }
            return false;
        }
        i = i + 1;
    }
    proof { lemma_elems_view_eq(a@, b@); }
    true
}

/// The element a property value reads as.
pub fn element_of_property(v: &PropertyValue) -> (r: GraphElement)
    ensures
        r@ == prop_elem(v@),
{
    match v {
        PropertyValue::Boolean(b) => GraphElement::Boolean(*b),
        PropertyValue::Number(n) => GraphElement::Number(n.copy()),
        PropertyValue::String(s) => GraphElement::String(crate::text::copy_string(s)),
    }
}

} // verus!
