use vstd::prelude::*;
use std::cmp::Ordering;
use crate::edge::Edge;
use crate::graph::Graph;
use crate::graph::display::elem_text;
use crate::graph::element::{element_of_property, elems_view, prop_elem, ElemV, GraphElement};
use crate::graph::functions::{call_function, call_spec};
use crate::graph::result_set::ResultSet;
use crate::graph::matching::RowV;
use crate::keyed::{compare_text, key_lt};
use crate::node::Node;
use crate::parser::{cond_view, exprs_view, lemma_exprs_view, CompareOp, CondV, Condition, ExprV, Expression};
use crate::parser::lexical::{digit_end, digit_run, lemma_digit_end, make_num, make_number};
use crate::property::{num_lt, NumV, Number, PropV, PropertyValue};
use crate::text::chars_of;

verus! {

/// A value a condition compares.
#[derive(Debug)]
pub enum EvalValue {
    String(String),
    Number(Number),
    Boolean(bool),
    Null,
}

/// The mathematical form of an [`EvalValue`].
pub enum EvalV {
    Text(Seq<char>),
    Number(NumV),
    Boolean(bool),
    Null,
}

impl View for EvalValue {
    type V = EvalV;

    open spec fn view(&self) -> EvalV {
        match self {
            EvalValue::String(s) => EvalV::Text(s@),
            EvalValue::Number(n) => EvalV::Number(n@),
            EvalValue::Boolean(b) => EvalV::Boolean(*b),
            EvalValue::Null => EvalV::Null,
        }
    }
}

// ---------------------------------------------------------------------------------------------
// Reading text as a number.

/// The number a text is, when it is an optional sign, digits, and optionally a point and
/// digits (at least one digit in all); `None` otherwise.
pub open spec fn text_number(s: Seq<char>) -> Option<NumV> {
    let signed = s.len() > 0 && (s[0] == '-' || s[0] == '+');
    let neg = s.len() > 0 && s[0] == '-';
    let a: int = if signed { 1 } else { 0 };
    let b = digit_end(s, a);
    if b == s.len() {
        if b > a { Some(make_num(neg, s.subrange(a, b), Seq::empty())) } else { None }
    } else if s[b] == '.' {
        let e = digit_end(s, b + 1);
        if e == s.len() && (b > a || e > b + 1) {
            Some(make_num(neg, s.subrange(a, b), s.subrange(b + 1, e)))
        } else {
            None
        }
    } else {
        None
    }
}

/// The end of the run of digits of `cs` from `i`.
fn digit_end_exec(cs: &Vec<char>, i: usize) -> (r: usize)
    requires
        i <= cs@.len(),
    ensures
        r == digit_end(cs@, i as int),
{
    proof { lemma_digit_end(cs@, i as int); }
    let mut j = i;
    while j < cs.len() && '0' <= cs[j] && cs[j] <= '9'
        invariant
            i <= j <= cs@.len(),
            digit_end(cs@, j as int) == digit_end(cs@, i as int),
        decreases cs@.len() - j,
    {
        j = j + 1;
    }
    j
}

/// Reads a text as a number (see `text_number`).
pub fn parse_number_text(s: &str) -> (r: Option<Number>)
    ensures
        match r {
            Some(n) => text_number(s@) == Some(n@) && n.wf(),
            None => text_number(s@) is None,
        },
{
    let cs = chars_of(s);
    let signed = cs.len() > 0 && (cs[0] == '-' || cs[0] == '+');
    let neg = cs.len() > 0 && cs[0] == '-';
    let a: usize = if signed { 1 } else { 0 };
    let b = digit_end_exec(&cs, a);
    proof { lemma_digit_end(cs@, a as int); }
    if b == cs.len() {
        if b > a {
            let n = make_number(&cs, neg, a, b, b, b);
            assert(cs@.subrange(b as int, b as int) =~= Seq::<char>::empty());
            Some(n)
        } else {
            None
        }
    } else if cs[b] == '.' {
        let e = digit_end_exec(&cs, b + 1);
        proof { lemma_digit_end(cs@, b + 1); }
        if e == cs.len() && (b > a || e > b + 1) {
            Some(make_number(&cs, neg, a, b, b + 1, e))
        } else {
            None
        }
    } else {
        None
    }
}

// ---------------------------------------------------------------------------------------------
// Comparing values.

/// The comparison holds of two numbers.
pub open spec fn num_holds(a: NumV, b: NumV, op: CompareOp) -> bool {
    match op {
        CompareOp::Eq => a == b,
        CompareOp::Neq => a != b,
        CompareOp::Gt => num_lt(b, a),
        CompareOp::Gte => num_lt(b, a) || a == b,
        CompareOp::Lt => num_lt(a, b),
        CompareOp::Lte => num_lt(a, b) || a == b,
    }
}

/// The comparison holds of two texts (in the order of their characters).
pub open spec fn text_holds(a: Seq<char>, b: Seq<char>, op: CompareOp) -> bool {
    match op {
        CompareOp::Eq => a == b,
        CompareOp::Neq => a != b,
        CompareOp::Gt => key_lt(b, a),
        CompareOp::Gte => key_lt(b, a) || a == b,
        CompareOp::Lt => key_lt(a, b),
        CompareOp::Lte => key_lt(a, b) || a == b,
    }
}

/// The comparison holds of two booleans (`false` before `true`).
pub open spec fn bool_holds(a: bool, b: bool, op: CompareOp) -> bool {
    match op {
        CompareOp::Eq => a == b,
        CompareOp::Neq => a != b,
        CompareOp::Gt => a && !b,
        CompareOp::Gte => a || !b,
        CompareOp::Lt => !a && b,
        CompareOp::Lte => !a || b,
    }
}

/// A comparison of two values: never true with `Null` on either side; numbers compare with
/// numbers and with texts that read as numbers, texts with texts, booleans with booleans; any
/// other pair compares false.
pub open spec fn compare_spec(l: EvalV, r: EvalV, op: CompareOp) -> bool {
    match (l, r) {
        (EvalV::Null, _) => false,
        (_, EvalV::Null) => false,
        (EvalV::Number(a), EvalV::Number(b)) => num_holds(a, b, op),
        (EvalV::Text(a), EvalV::Text(b)) => text_holds(a, b, op),
        (EvalV::Number(a), EvalV::Text(b)) => match text_number(b) {
            Some(n) => num_holds(a, n, op),
            None => false,
        },
        (EvalV::Text(a), EvalV::Number(b)) => match text_number(a) {
            Some(n) => num_holds(n, b, op),
            None => false,
        },
        (EvalV::Boolean(a), EvalV::Boolean(b)) => bool_holds(a, b, op),
        _ => false,
    }
}

/// The order of two numbers.
pub open spec fn num_order(a: NumV, b: NumV) -> Ordering {
    if num_lt(a, b) { Ordering::Less } else if a == b { Ordering::Equal } else { Ordering::Greater }
}

/// The order of two texts.
pub open spec fn text_order(a: Seq<char>, b: Seq<char>) -> Ordering {
    if key_lt(a, b) { Ordering::Less } else if a == b { Ordering::Equal } else { Ordering::Greater }
}

/// The order of two values, where there is one: `Null` first; numbers with numbers and with
/// texts that read as numbers; texts with texts; none otherwise (booleans included).
pub open spec fn order_spec(l: EvalV, r: EvalV) -> Option<Ordering> {
    match (l, r) {
        (EvalV::Null, EvalV::Null) => Some(Ordering::Equal),
        (EvalV::Null, _) => Some(Ordering::Less),
        (_, EvalV::Null) => Some(Ordering::Greater),
        (EvalV::Number(a), EvalV::Number(b)) => Some(num_order(a, b)),
        (EvalV::Text(a), EvalV::Text(b)) => Some(text_order(a, b)),
        (EvalV::Number(a), EvalV::Text(b)) => match text_number(b) {
            Some(n) => Some(num_order(a, n)),
            None => None,
        },
        (EvalV::Text(a), EvalV::Number(b)) => match text_number(a) {
            Some(n) => Some(num_order(n, b)),
            None => None,
        },
        _ => None,
    }
}

/// Compares two numbers.
fn num_compare(a: &Number, b: &Number, op: CompareOp) -> (r: bool)
    ensures
        r == num_holds(a@, b@, op),
{
    let c = a.compare(b);
    match op {
        CompareOp::Eq => c == 0,
        CompareOp::Neq => c != 0,
        CompareOp::Gt => c > 0,
        CompareOp::Gte => c >= 0,
        CompareOp::Lt => c < 0,
        CompareOp::Lte => c <= 0,
    }
}

/// Compares two texts.
fn text_compare(a: &str, b: &str, op: CompareOp) -> (r: bool)
    ensures
        r == text_holds(a@, b@, op),
{
    let c = compare_text(a, b);
    match op {
        CompareOp::Eq => c == 0,
        CompareOp::Neq => c != 0,
        CompareOp::Gt => c > 0,
        CompareOp::Gte => c >= 0,
        CompareOp::Lt => c < 0,
        CompareOp::Lte => c <= 0,
    }
}

/// Compares two booleans.
fn bool_compare(a: bool, b: bool, op: CompareOp) -> (r: bool)
    ensures
        r == bool_holds(a, b, op),
{
    match op {
        CompareOp::Eq => a == b,
        CompareOp::Neq => a != b,
        CompareOp::Gt => a && !b,
        CompareOp::Gte => a || !b,
        CompareOp::Lt => !a && b,
        CompareOp::Lte => !a || b,
    }
}

/// The order of two numbers as an `Ordering`.
fn num_ordering(a: &Number, b: &Number) -> (r: Ordering)
    ensures
        r == num_order(a@, b@),
{
    let c = a.compare(b);
    if c < 0 { Ordering::Less } else if c == 0 { Ordering::Equal } else { Ordering::Greater }
}

/// The order of two texts as an `Ordering`.
fn text_ordering(a: &str, b: &str) -> (r: Ordering)
    ensures
        r == text_order(a@, b@),
{
    let c = compare_text(a, b);
    if c < 0 { Ordering::Less } else if c == 0 { Ordering::Equal } else { Ordering::Greater }
}

impl EvalValue {
    /// The comparison holds of the two values (see `compare_spec`).
    pub fn compare(&self, other: &EvalValue, op: &CompareOp) -> (r: bool)
        ensures
            r == compare_spec(self@, other@, *op),
    {
        match (self, other) {
            (EvalValue::Null, _) => false,
            (_, EvalValue::Null) => false,
            (EvalValue::Number(l), EvalValue::Number(r)) => num_compare(l, r, *op),
            (EvalValue::String(l), EvalValue::String(r)) => text_compare(l.as_str(), r.as_str(), *op),
            (EvalValue::Number(l), EvalValue::String(r)) => match parse_number_text(r.as_str()) {
                Some(n) => num_compare(l, &n, *op),
                None => false,
            },
            (EvalValue::String(l), EvalValue::Number(r)) => match parse_number_text(l.as_str()) {
                Some(n) => num_compare(&n, r, *op),
                None => false,
            },
            (EvalValue::Boolean(l), EvalValue::Boolean(r)) => bool_compare(*l, *r, *op),
            _ => false,
        }
    }

    /// The order of the two values, where there is one (see `order_spec`).
    pub fn partial_cmp(&self, other: &EvalValue) -> (r: Option<Ordering>)
        ensures
            r == order_spec(self@, other@),
    {
        match (self, other) {
            (EvalValue::Null, EvalValue::Null) => Some(Ordering::Equal),
            (EvalValue::Null, _) => Some(Ordering::Less),
            (_, EvalValue::Null) => Some(Ordering::Greater),
            (EvalValue::Number(l), EvalValue::Number(r)) => Some(num_ordering(l, r)),
            (EvalValue::String(l), EvalValue::String(r)) => Some(text_ordering(l.as_str(), r.as_str())),
            (EvalValue::Number(l), EvalValue::String(r)) => match parse_number_text(r.as_str()) {
                Some(n) => Some(num_ordering(l, &n)),
                None => None,
            },
            (EvalValue::String(l), EvalValue::Number(r)) => match parse_number_text(l.as_str()) {
                Some(n) => Some(num_ordering(&n, r)),
                None => None,
            },
            _ => None,
        }
    }
}

/// The order of two values as a sign: -1 before, 1 after, 0 equal or unordered.
pub open spec fn order_sign(l: EvalV, r: EvalV) -> int {
    match order_spec(l, r) {
        Some(Ordering::Less) => -1,
        Some(Ordering::Greater) => 1,
        _ => 0,
    }
}

/// The order of two values as a sign (see `order_sign`).
pub fn order_sign_exec(a: &EvalValue, b: &EvalValue) -> (r: i8)
    ensures
        r == order_sign(a@, b@),
{
    match a.partial_cmp(b) {
        Some(Ordering::Less) => -1,
        Some(Ordering::Greater) => 1,
        _ => 0,
    }
}

// ---------------------------------------------------------------------------------------------
// Evaluating expressions and conditions for a row.

/// A character in lower case, for ASCII letters.
pub open spec fn ascii_lower(c: char) -> char {
    if 'A' <= c <= 'Z' { ((c as u32) + 32) as char } else { c }
}

/// The texts are equal ignoring the case of ASCII letters.
pub open spec fn eq_ignore_case(a: Seq<char>, b: Seq<char>) -> bool {
    a.len() == b.len() && forall|i: int| 0 <= i < a.len() ==> ascii_lower(#[trigger] a[i]) == ascii_lower(b[i])
}

/// Zero.
pub open spec fn zero_num() -> NumV {
    NumV { negative: false, int_digits: Seq::empty(), frac_digits: Seq::empty() }
}

/// The value of property `prop` of the node or edge `el`, if it has one.
pub open spec fn prop_of(nodes: Seq<Node>, edges: Seq<Edge>, el: ElemV, prop: Seq<char>) -> Option<PropV> {
    match el {
        ElemV::Node(id) => if id < nodes.len() && nodes[id as int].properties@.contains_key(prop) {
            Some(nodes[id as int].properties@[prop])
        } else {
            None
        },
        ElemV::Edge(id) => if id < edges.len() && edges[id as int].properties@.contains_key(prop) {
            Some(edges[id as int].properties@[prop])
        } else {
            None
        },
        _ => None,
    }
}

/// A property value as a value to compare.
pub open spec fn prop_eval(v: PropV) -> EvalV {
    match v {
        PropV::Text(s) => EvalV::Text(s),
        PropV::Number(n) => EvalV::Number(n),
        PropV::Boolean(b) => EvalV::Boolean(b),
    }
}

/// An element as a value to compare: numbers, strings, booleans and `Null` as they are, any
/// other element as its text.
pub open spec fn elem_eval(nodes: Seq<Node>, edges: Seq<Edge>, el: ElemV) -> EvalV {
    match el {
        ElemV::Number(n) => EvalV::Number(n),
        ElemV::Text(s) => EvalV::Text(s),
        ElemV::Boolean(b) => EvalV::Boolean(b),
        ElemV::Null => EvalV::Null,
        _ => EvalV::Text(elem_text(nodes, edges, el)),
    }
}

/// The value of an expression for a row: literals as they are; a variable as the element the
/// row binds it to (`Null` when unbound); a function call as what the call gives on its
/// arguments' elements (see `call_spec`; `Null` when it gives nothing); a property of the node
/// or edge the row binds the variable to (`Null` when there is none).
pub open spec fn eval_spec(nodes: Seq<Node>, edges: Seq<Edge>, row: RowV, e: ExprV) -> EvalV {
    match e {
        ExprV::StringLiteral(s) => EvalV::Text(s),
        ExprV::NumberLiteral(n) => EvalV::Number(n),
        ExprV::BooleanLiteral(b) => EvalV::Boolean(b),
        ExprV::Variable(v) => if row.contains_key(v) { elem_eval(nodes, edges, row[v]) } else { EvalV::Null },
        ExprV::Function(f, args) => match call_spec(f, eval_args_spec(nodes, edges, row, args)) {
            Some(x) => elem_eval(nodes, edges, x),
            None => EvalV::Null,
        },
        ExprV::Property(v, p) => if row.contains_key(v) {
            match prop_of(nodes, edges, row[v], p) {
                Some(pv) => prop_eval(pv),
                None => EvalV::Null,
            }
        } else {
            EvalV::Null
        },
    }
}

/// The condition holds for the row.
pub open spec fn cond_holds(nodes: Seq<Node>, edges: Seq<Edge>, row: RowV, c: CondV) -> bool
    decreases c,
{
    match c {
        CondV::And(l, r) => cond_holds(nodes, edges, row, *l) && cond_holds(nodes, edges, row, *r),
        CondV::Or(l, r) => cond_holds(nodes, edges, row, *l) || cond_holds(nodes, edges, row, *r),
        CondV::Not(x) => !cond_holds(nodes, edges, row, *x),
        CondV::Compare { left, op, right } =>
            compare_spec(eval_spec(nodes, edges, row, left), eval_spec(nodes, edges, row, right), op),
    }
}

/// The element property `prop` of what the row binds `var` to reads as, if there is one.
pub open spec fn prop_elem_of(nodes: Seq<Node>, edges: Seq<Edge>, row: RowV, var: Seq<char>, prop: Seq<char>) -> Option<ElemV> {
    if row.contains_key(var) {
        match prop_of(nodes, edges, row[var], prop) {
            Some(pv) => Some(prop_elem(pv)),
            None => None,
        }
    } else {
        None
    }
}

/// The elements the arguments give for a row, in order (see `eval_elem_spec`).
pub open spec fn eval_args_spec(nodes: Seq<Node>, edges: Seq<Edge>, row: RowV, args: Seq<ExprV>) -> Seq<ElemV>
    decreases args,
{
    if args.len() == 0 {
        Seq::empty()
    } else {
        eval_args_spec(nodes, edges, row, args.subrange(0, args.len() - 1)).push(eval_elem_spec(nodes, edges, row, args[args.len() - 1]))
    }
}

/// The element an expression gives for a row: literals as elements; a variable's element
/// (`Null` when unbound); a function call as what the call gives on its arguments' elements
/// (see `call_spec`; `Null` when it gives nothing); a property's value (`Null` when there is
/// none).
pub open spec fn eval_elem_spec(nodes: Seq<Node>, edges: Seq<Edge>, row: RowV, e: ExprV) -> ElemV
    decreases e,
{
    match e {
        ExprV::StringLiteral(s) => ElemV::Text(s),
        ExprV::NumberLiteral(n) => ElemV::Number(n),
        ExprV::BooleanLiteral(b) => ElemV::Boolean(b),
        ExprV::Variable(v) => if row.contains_key(v) { row[v] } else { ElemV::Null },
        ExprV::Function(f, args) => match call_spec(f, eval_args_spec(nodes, edges, row, args)) {
            Some(x) => x,
            None => ElemV::Null,
        },
        ExprV::Property(v, p) => match prop_elem_of(nodes, edges, row, v, p) {
            Some(x) => x,
            None => ElemV::Null,
        },
    }
}

impl Graph {
    /// The property `prop` of the node or edge `el`, if it has one (see `prop_of`).
    fn property_of(&self, el: &GraphElement, prop: &str) -> (r: Option<&PropertyValue>)
        requires
            self.wf(),
        ensures
            match r {
                Some(v) => prop_of(self.nodes@, self.edges@, el@, prop@) == Some(v@),
                None => prop_of(self.nodes@, self.edges@, el@, prop@) is None,
            },
    {
        match el {
            GraphElement::Node(id) => {
                if *id < self.nodes.len() {
                    assert(self.nodes@[*id as int].properties.wf());
                    self.nodes[*id].properties.get(prop)
                } else {
                    None
                }
            },
            GraphElement::Edge(id) => {
                if *id < self.edges.len() {
                    assert(self.edges@[*id as int].properties.wf());
                    self.edges[*id].properties.get(prop)
                } else {
                    None
                }
            },
            _ => None,
        }
    }

    /// The value of an expression for row `row_idx` (see `eval_spec`).
    pub fn evaluate_expression(&self, expr: &Expression, in_res: &ResultSet, row_idx: usize) -> (r: EvalValue)
        requires
            self.wf(),
            in_res.wf(),
            row_idx < in_res@.rows.len(),
        ensures
            r@ == eval_spec(self.nodes@, self.edges@, in_res@.rows[row_idx as int], expr@),
    {
        match expr {
            Expression::StringLiteral(s) => EvalValue::String(crate::text::copy_string(s)),
            Expression::NumberLiteral(n) => EvalValue::Number(n.copy()),
            Expression::BooleanLiteral(b) => EvalValue::Boolean(*b),
            Expression::Variable(var) => match in_res.get(row_idx, var.as_str()) {
                Some(el) => match el {
                    GraphElement::Number(n) => EvalValue::Number(n.copy()),
                    GraphElement::String(s) => EvalValue::String(crate::text::copy_string(s)),
                    GraphElement::Boolean(b) => EvalValue::Boolean(*b),
                    GraphElement::Null => EvalValue::Null,
                    _ => EvalValue::String(self.format_element(el)),
                },
                None => EvalValue::Null,
            },
            Expression::Function(f, args) => {
                let vals = self.evaluate_arguments(args, in_res, row_idx);
                match call_function(f.as_str(), &vals) {
                    Some(el) => match el {
                        GraphElement::Number(n) => EvalValue::Number(n),
                        GraphElement::String(s) => EvalValue::String(s),
                        GraphElement::Boolean(b) => EvalValue::Boolean(b),
                        GraphElement::Null => EvalValue::Null,
                        _ => EvalValue::String(self.format_element(&el)),
                    },
                    None => EvalValue::Null,
                }
            },
            Expression::Property(var, prop) => match in_res.get(row_idx, var.as_str()) {
                Some(el) => match self.property_of(el, prop.as_str()) {
                    Some(PropertyValue::String(s)) => EvalValue::String(crate::text::copy_string(s)),
                    Some(PropertyValue::Number(n)) => EvalValue::Number(n.copy()),
                    Some(PropertyValue::Boolean(b)) => EvalValue::Boolean(*b),
                    None => EvalValue::Null,
                },
                None => EvalValue::Null,
            },
        }
    }

    /// The condition holds for row `row_idx` (see `cond_holds`).
    pub fn evaluate_condition(&self, condition: &Condition, in_res: &ResultSet, row_idx: usize) -> (r: bool)
        requires
            self.wf(),
            in_res.wf(),
            row_idx < in_res@.rows.len(),
        ensures
            r == cond_holds(self.nodes@, self.edges@, in_res@.rows[row_idx as int], condition@),
        decreases condition,
    {
        match condition {
            Condition::And(l, r) => self.evaluate_condition(l, in_res, row_idx) && self.evaluate_condition(r, in_res, row_idx),
            Condition::Or(l, r) => self.evaluate_condition(l, in_res, row_idx) || self.evaluate_condition(r, in_res, row_idx),
            Condition::Not(x) => !self.evaluate_condition(x, in_res, row_idx),
            Condition::Compare { left, op, right } => {
                let l = self.evaluate_expression(left, in_res, row_idx);
                let r = self.evaluate_expression(right, in_res, row_idx);
                l.compare(&r, op)
            },
        }
    }

    /// The element property `prop` of what row `row_idx` binds `var` to reads as (see
    /// `prop_elem_of`).
    pub fn get_property_as_element(&self, in_res: &ResultSet, row_idx: usize, var: &str, prop: &str) -> (r: Option<GraphElement>)
        requires
            self.wf(),
            in_res.wf(),
            row_idx < in_res@.rows.len(),
        ensures
            match r {
                Some(e) => prop_elem_of(self.nodes@, self.edges@, in_res@.rows[row_idx as int], var@, prop@) == Some(e@),
                None => prop_elem_of(self.nodes@, self.edges@, in_res@.rows[row_idx as int], var@, prop@) is None,
            },
    {
        match in_res.get(row_idx, var) {
            Some(el) => match self.property_of(el, prop) {
                Some(v) => Some(element_of_property(v)),
                None => None,
            },
            None => None,
        }
    }

    /// The elements the arguments give for row `row_idx`, in order (see `eval_args_spec`).
    pub fn evaluate_arguments(&self, args: &Vec<Expression>, in_res: &ResultSet, row_idx: usize) -> (r: Vec<GraphElement>)
        requires
            self.wf(),
            in_res.wf(),
            row_idx < in_res@.rows.len(),
        ensures
            elems_view(r@) == eval_args_spec(self.nodes@, self.edges@, in_res@.rows[row_idx as int], exprs_view(args@)),
        decreases exprs_view(args@),
    {
        let ghost row = in_res@.rows[row_idx as int];
        proof { lemma_exprs_view(args@); }
        let mut out: Vec<GraphElement> = Vec::new();
        let mut i: usize = 0;
        while i < args.len()
            invariant
                self.wf(),
                in_res.wf(),
                row_idx < in_res@.rows.len(),
                row == in_res@.rows[row_idx as int],
                i <= args@.len(),
                out@.len() == i,
                exprs_view(args@).len() == args@.len(),
                forall|j: int| 0 <= j < args@.len() ==> #[trigger] exprs_view(args@)[j] == args@[j]@,
                elems_view(out@) == eval_args_spec(self.nodes@, self.edges@, row, exprs_view(args@).subrange(0, i as int)),
            decreases args@.len() - i,
        {
            proof {
                assert(decreases_to!(exprs_view(args@) => exprs_view(args@)[i as int]));
            }
            let v = self.evaluate_expression_to_element(&args[i], in_res, row_idx);
            let ghost before = out@;
            out.push(v);
            proof {
                let sv = exprs_view(args@).subrange(0, i + 1);
                assert(sv.subrange(0, i as int) =~= exprs_view(args@).subrange(0, i as int));
                assert(sv[i as int] == args@[i as int]@);
                assert(out@.subrange(0, i as int) =~= before);
                assert(elems_view(out@) == elems_view(before).push(v@));
            }
            i = i + 1;
        }
        assert(exprs_view(args@).subrange(0, args@.len() as int) =~= exprs_view(args@));
        out
    }

    /// The element an expression gives for row `row_idx` (see `eval_elem_spec`).
    pub fn evaluate_expression_to_element(&self, expr: &Expression, in_res: &ResultSet, row_idx: usize) -> (r: GraphElement)
        requires
            self.wf(),
            in_res.wf(),
            row_idx < in_res@.rows.len(),
        ensures
            r@ == eval_elem_spec(self.nodes@, self.edges@, in_res@.rows[row_idx as int], expr@),
        decreases expr@,
    {
        match expr {
            Expression::StringLiteral(s) => GraphElement::String(crate::text::copy_string(s)),
            Expression::NumberLiteral(n) => GraphElement::Number(n.copy()),
            Expression::BooleanLiteral(b) => GraphElement::Boolean(*b),
            Expression::Variable(var) => match in_res.get(row_idx, var.as_str()) {
                Some(el) => el.copy(),
                None => GraphElement::Null,
            },
            Expression::Function(f, args) => {
                let vals = self.evaluate_arguments(args, in_res, row_idx);
                match call_function(f.as_str(), &vals) {
                    Some(el) => el,
                    None => GraphElement::Null,
                }
            },
            Expression::Property(var, prop) => match self.get_property_as_element(in_res, row_idx, var.as_str(), prop.as_str()) {
                Some(e) => e,
                None => GraphElement::Null,
            },
        }
    }
}

} // verus!
