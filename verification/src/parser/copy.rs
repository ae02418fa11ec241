use vstd::prelude::*;
use crate::parser::{
    cond_view, exprs_view, items_view, lemma_exprs_view, names_view, opt_str_view, order_view, paths_view, steps_view,
    CondV, Condition, ExprV, Expression, ItemV, NodePattern, OrderItem, OrderItemV, Path, PathV, ProjectionItem, RelPattern,
};
use crate::parser::grammar::{path_wf, paths_wf, steps_wf};
use crate::text::copy_string;

verus! {

/// A copy of an optional name.
pub fn copy_opt_string(o: &Option<String>) -> (r: Option<String>)
    ensures
        opt_str_view(r) == opt_str_view(*o),
{
    match o {
        Some(s) => Some(copy_string(s)),
        None => None,
    }
}

impl NodePattern {
    /// A copy of the pattern.
    pub fn copy(&self) -> (r: NodePattern)
        requires
            self.properties.wf(),
        ensures
            r@ == self@,
            r.properties.wf(),
    {
        NodePattern {
            variable: copy_opt_string(&self.variable),
            label: copy_opt_string(&self.label),
            properties: self.properties.copy(),
        }
    }
}

impl RelPattern {
    /// A copy of the pattern.
    pub fn copy(&self) -> (r: RelPattern)
        requires
            self.properties.wf(),
        ensures
            r@ == self@,
            r.properties.wf(),
    {
        RelPattern {
            variable: copy_opt_string(&self.variable),
            label: copy_opt_string(&self.label),
            properties: self.properties.copy(),
            length: self.length,
        }
    }
}

impl Path {
    /// A copy of the path.
    pub fn copy(&self) -> (r: Path)
        requires
            path_wf(*self),
        ensures
            r@ == self@,
            path_wf(r),
    {
        let mut edges: Vec<(RelPattern, NodePattern)> = Vec::new();
        let mut i: usize = 0;
        while i < self.edges.len()
            invariant
                path_wf(*self),
                i <= self.edges@.len(),
                edges@.len() == i,
                steps_wf(edges@),
                forall|j: int| 0 <= j < i ==> (#[trigger] edges@[j]).0@ == self.edges@[j].0@ && edges@[j].1@ == self.edges@[j].1@,
            decreases self.edges@.len() - i,
        {
            let r = self.edges[i].0.copy();
            let n = self.edges[i].1.copy();
            edges.push((r, n));
            i = i + 1;
        }
        assert(steps_view(edges@) =~= steps_view(self.edges@));
        Path { bound_variable: copy_opt_string(&self.bound_variable), start: self.start.copy(), edges: edges }
    }
}

/// A copy of a list of paths.
pub fn copy_paths(ps: &Vec<Path>) -> (r: Vec<Path>)
    requires
        paths_wf(ps@),
    ensures
        paths_view(r@) == paths_view(ps@),
        paths_wf(r@),
{
    let mut out: Vec<Path> = Vec::new();
    let mut i: usize = 0;
    while i < ps.len()
        invariant
            paths_wf(ps@),
            i <= ps@.len(),
            out@.len() == i,
            paths_wf(out@),
            forall|j: int| 0 <= j < i ==> (#[trigger] out@[j])@ == ps@[j]@,
        decreases ps@.len() - i,
    {
        out.push(ps[i].copy());
        i = i + 1;
    }
    assert(paths_view(out@) =~= paths_view(ps@));
    out
}

impl Expression {
    /// A copy of the expression.
    pub fn copy(&self) -> (r: Expression)
        ensures
            r@ == self@,
        decreases self,
    {
        match self {
            Expression::Property(v, p) => Expression::Property(copy_string(v), copy_string(p)),
            Expression::StringLiteral(s) => Expression::StringLiteral(copy_string(s)),
            Expression::NumberLiteral(n) => Expression::NumberLiteral(n.copy()),
            Expression::BooleanLiteral(b) => Expression::BooleanLiteral(*b),
            Expression::Variable(v) => Expression::Variable(copy_string(v)),
            Expression::Function(f, args) => Expression::Function(copy_string(f), copy_exprs(args)),
        }
    }
}

/// A copy of a list of expressions.
pub fn copy_exprs(es: &Vec<Expression>) -> (r: Vec<Expression>)
    ensures
        exprs_view(r@) == exprs_view(es@),
    decreases es@,
{
    let mut out: Vec<Expression> = Vec::new();
    let mut i: usize = 0;
    while i < es.len()
        invariant
            i <= es@.len(),
            out@.len() == i,
            forall|j: int| 0 <= j < i ==> (#[trigger] out@[j])@ == es@[j]@,
        decreases es@.len() - i,
    {
        out.push(es[i].copy());
        i = i + 1;
    }
    proof {
        lemma_exprs_view(out@);
        lemma_exprs_view(es@);
        assert(exprs_view(out@) =~= exprs_view(es@));
    }
    out
}

impl Condition {
    /// A copy of the condition.
    pub fn copy(&self) -> (r: Condition)
        ensures
            r@ == self@,
        decreases self,
    {
        match self {
            Condition::And(l, r) => Condition::And(Box::new((**l).copy()), Box::new((**r).copy())),
            Condition::Or(l, r) => Condition::Or(Box::new((**l).copy()), Box::new((**r).copy())),
            Condition::Not(x) => Condition::Not(Box::new((**x).copy())),
            Condition::Compare { left, op, right } => Condition::Compare { left: left.copy(), op: *op, right: right.copy() },
        }
    }
}

impl ProjectionItem {
    /// A copy of the item.
    pub fn copy(&self) -> (r: ProjectionItem)
        ensures
            r@ == self@,
    {
        match self {
            ProjectionItem::Star => ProjectionItem::Star,
            ProjectionItem::Variable(v) => ProjectionItem::Variable(copy_string(v)),
            ProjectionItem::AliasedVariable(v, a) => ProjectionItem::AliasedVariable(copy_string(v), copy_string(a)),
            ProjectionItem::Aggregate { func, var, alias } =>
                ProjectionItem::Aggregate { func: copy_string(func), var: copy_string(var), alias: copy_opt_string(alias) },
            ProjectionItem::Function { func, args, alias } =>
                ProjectionItem::Function { func: copy_string(func), args: copy_exprs(args), alias: copy_opt_string(alias) },
        }
    }
}

/// A copy of a list of projection items.
pub fn copy_items(its: &Vec<ProjectionItem>) -> (r: Vec<ProjectionItem>)
    ensures
        items_view(r@) == items_view(its@),
{
    let mut out: Vec<ProjectionItem> = Vec::new();
    let mut i: usize = 0;
    while i < its.len()
        invariant
            i <= its@.len(),
            out@.len() == i,
            forall|j: int| 0 <= j < i ==> (#[trigger] out@[j])@ == its@[j]@,
        decreases its@.len() - i,
    {
        out.push(its[i].copy());
        i = i + 1;
    }
    assert(items_view(out@) =~= items_view(its@));
    out
}

/// A copy of a list of order items.
pub fn copy_order(os: &Vec<OrderItem>) -> (r: Vec<OrderItem>)
    ensures
        order_view(r@) == order_view(os@),
{
    let mut out: Vec<OrderItem> = Vec::new();
    let mut i: usize = 0;
    while i < os.len()
        invariant
            i <= os@.len(),
            out@.len() == i,
            forall|j: int| 0 <= j < i ==> (#[trigger] out@[j])@ == os@[j]@,
        decreases os@.len() - i,
    {
        out.push(OrderItem { expr: os[i].expr.copy(), asc: os[i].asc });
        i = i + 1;
    }
    assert(order_view(out@) =~= order_view(os@));
    out
}

/// A copy of a list of names.
pub fn copy_names(ns: &Vec<String>) -> (r: Vec<String>)
    ensures
        names_view(r@) == names_view(ns@),
{
    let mut out: Vec<String> = Vec::new();
    let mut i: usize = 0;
    while i < ns.len()
        invariant
            i <= ns@.len(),
            out@.len() == i,
            forall|j: int| 0 <= j < i ==> (#[trigger] out@[j])@ == ns@[j]@,
        decreases ns@.len() - i,
    {
        out.push(copy_string(&ns[i]));
        i = i + 1;
    }
    assert(names_view(out@) =~= names_view(ns@));
    out
}

} // verus!
