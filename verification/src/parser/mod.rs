use vstd::prelude::*;
use crate::property::{NumV, Number, PropV, PropertyMap, PropertyValue};

pub mod lexical;
pub mod grammar;
pub mod clauses;
pub mod copy;

verus! {

/// A node in a pattern: `(variable:Label {key: value, ...})`.
#[derive(Debug)]
pub struct NodePattern {
    pub variable: Option<String>,
    pub label: Option<String>,
    pub properties: PropertyMap,
}

/// A relationship in a pattern: `-[variable:Label {key: value} *min..max]->`.
#[derive(Debug)]
pub struct RelPattern {
    pub variable: Option<String>,
    pub label: Option<String>,
    pub properties: PropertyMap,
    pub length: Option<(usize, Option<usize>)>,
}

/// One step of a path: a node, or a relationship and the node it leads to.
#[derive(Debug)]
pub enum PathPart {
    Node(NodePattern),
    Edge(RelPattern, NodePattern),
}

/// A path pattern, optionally bound to a variable (`p = (a)-[r]->(b)`).
#[derive(Debug)]
pub struct Path {
    pub bound_variable: Option<String>,
    pub start: NodePattern,
    pub edges: Vec<(RelPattern, NodePattern)>,
}

/// An expression of a condition, a projection or an ordering.
#[derive(Debug)]
pub enum Expression {
    Property(String, String),
    StringLiteral(String),
    NumberLiteral(Number),
    BooleanLiteral(bool),
    Variable(String),
    Function(String, Vec<Expression>),
}

/// A comparison operator.
#[derive(Debug, Clone, Copy, PartialEq, Eq)]
pub enum CompareOp {
    Eq,
    Neq,
    Gt,
    Gte,
    Lt,
    Lte,
}

/// A boolean condition of a `WHERE` clause.
#[derive(Debug)]
pub enum Condition {
    And(Box<Condition>, Box<Condition>),
    Or(Box<Condition>, Box<Condition>),
    Not(Box<Condition>),
    Compare { left: Expression, op: CompareOp, right: Expression },
}

/// One item of a `RETURN`, `WITH` or `UNWIND` list.
#[derive(Debug)]
pub enum ProjectionItem {
    Star,
    Variable(String),
    AliasedVariable(String, String),
    Aggregate { func: String, var: String, alias: Option<String> },
    Function { func: String, args: Vec<Expression>, alias: Option<String> },
}

/// One item of an `ORDER BY` list.
#[derive(Debug)]
pub struct OrderItem {
    pub expr: Expression,
    pub asc: bool,
}

/// A clause of a query.
#[derive(Debug)]
pub enum Clause {
    Create(Vec<Path>),
    Match(Vec<Path>, Option<Condition>),
    Merge(Vec<Path>),
    SetProperty(String, String, PropertyValue),
    CreateIndex { label: String, property: String },
    Unwind(Vec<ProjectionItem>),
    Delete(Vec<String>),
    Return(Vec<ProjectionItem>, Option<Vec<OrderItem>>, Option<usize>),
    With(Vec<ProjectionItem>, Option<Vec<OrderItem>>),
    Call(Vec<Clause>),
}

/// A parsed query: an optional `PROFILE` prefix and its clauses.
#[derive(Debug)]
pub struct Query {
    pub profile: bool,
    pub clauses: Vec<Clause>,
}

/// Why a query did not parse: the text that was left over after the last clause.
#[derive(Debug, Clone, PartialEq)]
pub struct ParseError {
    pub input: String,
}

// ---------------------------------------------------------------------------------------------
// Mathematical views of the syntax tree.

pub struct NodePatternV {
    pub variable: Option<Seq<char>>,
    pub label: Option<Seq<char>>,
    pub properties: Map<Seq<char>, PropV>,
}

pub struct RelPatternV {
    pub variable: Option<Seq<char>>,
    pub label: Option<Seq<char>>,
    pub properties: Map<Seq<char>, PropV>,
    pub length: Option<(usize, Option<usize>)>,
}

pub struct PathV {
    pub bound_variable: Option<Seq<char>>,
    pub start: NodePatternV,
    pub edges: Seq<(RelPatternV, NodePatternV)>,
}

pub enum ExprV {
    Property(Seq<char>, Seq<char>),
    StringLiteral(Seq<char>),
    NumberLiteral(NumV),
    BooleanLiteral(bool),
    Variable(Seq<char>),
    Function(Seq<char>, Seq<ExprV>),
}

pub enum CondV {
    And(Box<CondV>, Box<CondV>),
    Or(Box<CondV>, Box<CondV>),
    Not(Box<CondV>),
    Compare { left: ExprV, op: CompareOp, right: ExprV },
}

pub enum ItemV {
    Star,
    Variable(Seq<char>),
    AliasedVariable(Seq<char>, Seq<char>),
    Aggregate { func: Seq<char>, var: Seq<char>, alias: Option<Seq<char>> },
    Function { func: Seq<char>, args: Seq<ExprV>, alias: Option<Seq<char>> },
}

pub struct OrderItemV {
    pub expr: ExprV,
    pub asc: bool,
}

pub enum ClauseV {
    Create(Seq<PathV>),
    Match(Seq<PathV>, Option<CondV>),
    Merge(Seq<PathV>),
    SetProperty(Seq<char>, Seq<char>, PropV),
    CreateIndex { label: Seq<char>, property: Seq<char> },
    Unwind(Seq<ItemV>),
    Delete(Seq<Seq<char>>),
    Return(Seq<ItemV>, Option<Seq<OrderItemV>>, Option<usize>),
    With(Seq<ItemV>, Option<Seq<OrderItemV>>),
    Call(Seq<ClauseV>),
}

pub struct QueryV {
    pub profile: bool,
    pub clauses: Seq<ClauseV>,
}

pub open spec fn opt_str_view(o: Option<String>) -> Option<Seq<char>> {
    match o {
        Some(s) => Some(s@),
        None => None,
    }
}

impl View for NodePattern {
    type V = NodePatternV;

    open spec fn view(&self) -> NodePatternV {
        NodePatternV { variable: opt_str_view(self.variable), label: opt_str_view(self.label), properties: self.properties@ }
    }
}

impl View for RelPattern {
    type V = RelPatternV;

    open spec fn view(&self) -> RelPatternV {
        RelPatternV {
            variable: opt_str_view(self.variable),
            label: opt_str_view(self.label),
            properties: self.properties@,
            length: self.length,
        }
    }
}

pub open spec fn steps_view(es: Seq<(RelPattern, NodePattern)>) -> Seq<(RelPatternV, NodePatternV)> {
    es.map_values(|e: (RelPattern, NodePattern)| (e.0@, e.1@))
}

impl View for Path {
    type V = PathV;

    open spec fn view(&self) -> PathV {
        PathV { bound_variable: opt_str_view(self.bound_variable), start: self.start@, edges: steps_view(self.edges@) }
    }
}

pub open spec fn paths_view(ps: Seq<Path>) -> Seq<PathV> {
    ps.map_values(|p: Path| p@)
}

impl View for Expression {
    type V = ExprV;

    open spec fn view(&self) -> ExprV
        decreases self,
    {
        match self {
            Expression::Property(v, p) => ExprV::Property(v@, p@),
            Expression::StringLiteral(s) => ExprV::StringLiteral(s@),
            Expression::NumberLiteral(n) => ExprV::NumberLiteral(n@),
            Expression::BooleanLiteral(b) => ExprV::BooleanLiteral(*b),
            Expression::Variable(v) => ExprV::Variable(v@),
            Expression::Function(f, args) => ExprV::Function(f@, exprs_view(args@)),
        }
    }
}

pub open spec fn exprs_view(es: Seq<Expression>) -> Seq<ExprV>
    decreases es,
{
    if es.len() == 0 {
        Seq::empty()
    } else {
        exprs_view(es.subrange(0, es.len() - 1)).push(es[es.len() - 1]@)
    }
}

/// The view of a list of expressions, element by element.
pub proof fn lemma_exprs_view(es: Seq<Expression>)
    ensures
        exprs_view(es).len() == es.len(),
        forall|i: int| 0 <= i < es.len() ==> #[trigger] exprs_view(es)[i] == es[i]@,
    decreases es.len(),
{
    if es.len() > 0 {
        let t = es.subrange(0, es.len() - 1);
        lemma_exprs_view(t);
        assert(exprs_view(es) == exprs_view(t).push(es[es.len() - 1]@));
        assert forall|i: int| 0 <= i < es.len() implies #[trigger] exprs_view(es)[i] == es[i]@ by {
            if i < es.len() - 1 {
                assert(t[i] == es[i]);
            }
        }
    } else {
        assert(exprs_view(es) == Seq::<ExprV>::empty());
    }
}

/// Putting an expression in front of a list.
pub proof fn lemma_exprs_view_cons(e: Expression, es: Seq<Expression>)
    ensures
        exprs_view(seq![e] + es) == seq![e@] + exprs_view(es),
{
    lemma_exprs_view(seq![e] + es);
    lemma_exprs_view(es);
    assert(exprs_view(seq![e] + es) =~= seq![e@] + exprs_view(es));
}

pub open spec fn cond_view(c: Condition) -> CondV
    decreases c,
{
    match c {
        Condition::And(l, r) => CondV::And(Box::new(cond_view(*l)), Box::new(cond_view(*r))),
        Condition::Or(l, r) => CondV::Or(Box::new(cond_view(*l)), Box::new(cond_view(*r))),
        Condition::Not(x) => CondV::Not(Box::new(cond_view(*x))),
        Condition::Compare { left, op, right } => CondV::Compare { left: left@, op: op, right: right@ },
    }
}

impl View for Condition {
    type V = CondV;

    open spec fn view(&self) -> CondV {
        cond_view(*self)
    }
}

/// A number literal is in normal form.
pub open spec fn lit_wf(e: ExprV) -> bool {
    e matches ExprV::NumberLiteral(n) ==> crate::property::num_wf(n)
}

/// The literals that a condition compares directly are in normal form.
pub open spec fn condv_wf(c: CondV) -> bool
    decreases c,
{
    match c {
        CondV::And(l, r) => condv_wf(*l) && condv_wf(*r),
        CondV::Or(l, r) => condv_wf(*l) && condv_wf(*r),
        CondV::Not(x) => condv_wf(*x),
        CondV::Compare { left, right, .. } => lit_wf(left) && lit_wf(right),
    }
}

impl View for OrderItem {
    type V = OrderItemV;

    open spec fn view(&self) -> OrderItemV {
        OrderItemV { expr: self.expr@, asc: self.asc }
    }
}

impl View for ProjectionItem {
    type V = ItemV;

    open spec fn view(&self) -> ItemV {
        match self {
            ProjectionItem::Star => ItemV::Star,
            ProjectionItem::Variable(v) => ItemV::Variable(v@),
            ProjectionItem::AliasedVariable(v, a) => ItemV::AliasedVariable(v@, a@),
            ProjectionItem::Aggregate { func, var, alias } => ItemV::Aggregate { func: func@, var: var@, alias: opt_str_view(*alias) },
            ProjectionItem::Function { func, args, alias } => ItemV::Function { func: func@, args: exprs_view(args@), alias: opt_str_view(*alias) },
        }
    }
}

pub open spec fn items_view(its: Seq<ProjectionItem>) -> Seq<ItemV> {
    its.map_values(|it: ProjectionItem| it@)
}

pub open spec fn order_view(os: Seq<OrderItem>) -> Seq<OrderItemV> {
    os.map_values(|o: OrderItem| o@)
}

pub open spec fn opt_order_view(o: Option<Vec<OrderItem>>) -> Option<Seq<OrderItemV>> {
    match o {
        Some(v) => Some(order_view(v@)),
        None => None,
    }
}

pub open spec fn opt_cond_view(o: Option<Condition>) -> Option<CondV> {
    match o {
        Some(c) => Some(c@),
        None => None,
    }
}

pub open spec fn names_view(ns: Seq<String>) -> Seq<Seq<char>> {
    ns.map_values(|n: String| n@)
}

impl View for Clause {
    type V = ClauseV;

    open spec fn view(&self) -> ClauseV
        decreases self,
    {
        match self {
            Clause::Create(ps) => ClauseV::Create(paths_view(ps@)),
            Clause::Match(ps, c) => ClauseV::Match(paths_view(ps@), opt_cond_view(*c)),
            Clause::Merge(ps) => ClauseV::Merge(paths_view(ps@)),
            Clause::SetProperty(v, k, val) => ClauseV::SetProperty(v@, k@, val@),
            Clause::CreateIndex { label, property } => ClauseV::CreateIndex { label: label@, property: property@ },
            Clause::Unwind(its) => ClauseV::Unwind(items_view(its@)),
            Clause::Delete(ns) => ClauseV::Delete(names_view(ns@)),
            Clause::Return(its, o, l) => ClauseV::Return(items_view(its@), opt_order_view(*o), *l),
            Clause::With(its, o) => ClauseV::With(items_view(its@), opt_order_view(*o)),
            Clause::Call(cs) => ClauseV::Call(clauses_view(cs@)),
        }
    }
}

pub open spec fn clauses_view(cs: Seq<Clause>) -> Seq<ClauseV>
    decreases cs,
{
    if cs.len() == 0 {
        Seq::empty()
    } else {
        clauses_view(cs.subrange(0, cs.len() - 1)).push(cs[cs.len() - 1]@)
    }
}

/// The view of a list of clauses, element by element.
pub proof fn lemma_clauses_view(cs: Seq<Clause>)
    ensures
        clauses_view(cs).len() == cs.len(),
        forall|i: int| 0 <= i < cs.len() ==> #[trigger] clauses_view(cs)[i] == cs[i]@,
    decreases cs.len(),
{
    if cs.len() > 0 {
        let t = cs.subrange(0, cs.len() - 1);
        lemma_clauses_view(t);
        assert(clauses_view(cs) == clauses_view(t).push(cs[cs.len() - 1]@));
        assert forall|i: int| 0 <= i < cs.len() implies #[trigger] clauses_view(cs)[i] == cs[i]@ by {
            if i < cs.len() - 1 {
                assert(t[i] == cs[i]);
            }
        }
    } else {
        assert(clauses_view(cs) == Seq::<ClauseV>::empty());
    }
}

/// Putting a clause in front of a list.
pub proof fn lemma_clauses_view_cons(c: Clause, cs: Seq<Clause>)
    ensures
        clauses_view(seq![c] + cs) == seq![c@] + clauses_view(cs),
{
    lemma_clauses_view(seq![c] + cs);
    lemma_clauses_view(cs);
    assert(clauses_view(seq![c] + cs) =~= seq![c@] + clauses_view(cs));
}

impl View for Query {
    type V = QueryV;

    open spec fn view(&self) -> QueryV {
        QueryV { profile: self.profile, clauses: clauses_view(self.clauses@) }
    }
}

} // verus!
