use vstd::prelude::*;
use crate::parser::lexical::{
    skip_ws, sp_ws_char, sp_ws_kw, sp_ws_identifier, skip_ws_exec, ws_char_exec, ws_kw_exec,
    ws_identifier_exec, lemma_skip_ws,
};
use crate::parser::grammar::{
    sep_rest, sep1, sep0, many, sp_expression, sp_paths, sp_where, sp_value_or_ident, sp_ws_number,
    lemma_ws_char_progress, lemma_ws_identifier_progress, lemma_ws_kw_progress, expression_exec,
    paths_exec, where_exec, value_or_ident_exec, ws_number_exec, paths_wf,
};
use crate::parser::{
    exprs_view, lemma_exprs_view_cons, items_view, order_view, opt_order_view, opt_cond_view, names_view,
    clauses_view, lemma_clauses_view_cons, paths_view, Clause, ClauseV, ExprV, Expression, ItemV, OrderItem,
    OrderItemV, ProjectionItem, Query, QueryV,
};

verus! {

// ---------------------------------------------------------------------------------------------
// Projections and orderings (specification).

/// An optional `AS alias`.
pub open spec fn sp_alias(s: Seq<char>, i: int) -> (Option<Seq<char>>, int) {
    match sp_ws_kw(s, i, "AS"@, "as"@) {
        Some(j) => match sp_ws_identifier(s, j) {
            Some((a, k)) => (Some(a), k),
            None => (None, i),
        },
        None => (None, i),
    }
}

/// The name of an aggregate, in upper case: `COUNT`, `COLLECT` or `UNIQUE`, in either case.
pub open spec fn sp_aggregate_name(s: Seq<char>, i: int) -> Option<(Seq<char>, int)> {
    match sp_ws_kw(s, i, "COUNT"@, "count"@) {
        Some(j) => Some(("COUNT"@, j)),
        None => match sp_ws_kw(s, i, "COLLECT"@, "collect"@) {
            Some(j) => Some(("COLLECT"@, j)),
            None => match sp_ws_kw(s, i, "UNIQUE"@, "unique"@) {
                Some(j) => Some(("UNIQUE"@, j)),
                None => None,
            },
        },
    }
}

/// The argument of an aggregate: a variable or `*`.
pub open spec fn sp_aggregate_arg(s: Seq<char>, i: int) -> Option<(Seq<char>, int)> {
    match sp_ws_identifier(s, i) {
        Some(r) => Some(r),
        None => match sp_ws_char(s, i, '*') {
            Some(j) => Some((seq!['*'], j)),
            None => None,
        },
    }
}

/// `COUNT(x) AS alias` and the like.
pub open spec fn sp_aggregate(s: Seq<char>, i: int) -> Option<(ItemV, int)> {
    match sp_aggregate_name(s, i) {
        None => None,
        Some((f, a)) => match sp_ws_char(s, a, '(') {
            None => None,
            Some(b) => match sp_aggregate_arg(s, b) {
                None => None,
                Some((v, c)) => match sp_ws_char(s, c, ')') {
                    None => None,
                    Some(d) => {
                        let (al, e) = sp_alias(s, d);
                        Some((ItemV::Aggregate { func: f, var: v, alias: al }, e))
                    },
                },
            },
        },
    }
}

pub open spec fn expression_parser() -> spec_fn(Seq<char>, int) -> Option<(ExprV, int)> {
    |s: Seq<char>, i: int| sp_expression(s, i)
}

/// `f(args) AS alias`, with zero or more arguments.
pub open spec fn sp_item_function(s: Seq<char>, i: int) -> Option<(ItemV, int)> {
    match sp_ws_identifier(s, i) {
        None => None,
        Some((f, a)) => match sp_ws_char(s, a, '(') {
            None => None,
            Some(b) => {
                let (args, c) = sep0(s, b, ',', expression_parser());
                match sp_ws_char(s, c, ')') {
                    None => None,
                    Some(d) => {
                        let (al, e) = sp_alias(s, d);
                        Some((ItemV::Function { func: f, args: args, alias: al }, e))
                    },
                }
            },
        },
    }
}

/// One item of a projection.
pub open spec fn sp_item(s: Seq<char>, i: int) -> Option<(ItemV, int)> {
    match sp_ws_char(s, i, '*') {
        Some(j) => Some((ItemV::Star, j)),
        None => match sp_aggregate(s, i) {
            Some(r) => Some(r),
            None => match sp_item_function(s, i) {
                Some(r) => Some(r),
                None => match sp_ws_identifier(s, i) {
                    None => None,
                    Some((v, j)) => match sp_alias(s, j) {
                        (Some(a), k) => Some((ItemV::AliasedVariable(v, a), k)),
                        (None, _) => Some((ItemV::Variable(v), j)),
                    },
                },
            },
        },
    }
}

pub open spec fn item_parser() -> spec_fn(Seq<char>, int) -> Option<(ItemV, int)> {
    |s: Seq<char>, i: int| sp_item(s, i)
}

/// An expression with an optional direction; ascending unless `DESC` follows.
pub open spec fn sp_order_item(s: Seq<char>, i: int) -> Option<(OrderItemV, int)> {
    match sp_expression(s, i) {
        None => None,
        Some((e, j)) => match sp_ws_kw(s, j, "ASC"@, "asc"@) {
            Some(k) => Some((OrderItemV { expr: e, asc: true }, k)),
            None => match sp_ws_kw(s, j, "DESC"@, "desc"@) {
                Some(k) => Some((OrderItemV { expr: e, asc: false }, k)),
                None => Some((OrderItemV { expr: e, asc: true }, j)),
            },
        },
    }
}

pub open spec fn order_item_parser() -> spec_fn(Seq<char>, int) -> Option<(OrderItemV, int)> {
    |s: Seq<char>, i: int| sp_order_item(s, i)
}

/// `ORDER BY item, ...`.
pub open spec fn sp_order_by(s: Seq<char>, i: int) -> Option<(Seq<OrderItemV>, int)> {
    match sp_ws_kw(s, i, "ORDER BY"@, "order by"@) {
        None => None,
        Some(j) => sep1(s, j, ',', order_item_parser()),
    }
}

/// An optional `ORDER BY` list.
pub open spec fn sp_opt_order_by(s: Seq<char>, i: int) -> (Option<Seq<OrderItemV>>, int) {
    match sp_order_by(s, i) {
        Some((os, j)) => (Some(os), j),
        None => (None, i),
    }
}

/// An optional `LIMIT n`; a count too large for `usize` is read as no limit.
pub open spec fn sp_opt_limit(s: Seq<char>, i: int) -> (Option<usize>, int) {
    match sp_ws_kw(s, i, "LIMIT"@, "limit"@) {
        None => (None, i),
        Some(j) => match sp_ws_number(s, j) {
            None => (None, i),
            Some((n, k)) => (if n <= usize::MAX { Some(n as usize) } else { None }, k),
        },
    }
}

pub open spec fn ws_identifier_parser() -> spec_fn(Seq<char>, int) -> Option<(Seq<char>, int)> {
    |s: Seq<char>, i: int| sp_ws_identifier(s, i)
}

// ---------------------------------------------------------------------------------------------
// Clauses (specification).

/// `CREATE INDEX ON :Label(property)`.
pub open spec fn sp_create_index(s: Seq<char>, i: int) -> Option<(ClauseV, int)> {
    match sp_ws_kw(s, i, "CREATE INDEX ON"@, "create index on"@) {
        None => None,
        Some(a) => match sp_ws_char(s, a, ':') {
            None => None,
            Some(b) => match sp_ws_identifier(s, b) {
                None => None,
                Some((l, c)) => match sp_ws_char(s, c, '(') {
                    None => None,
                    Some(d) => match sp_ws_identifier(s, d) {
                        None => None,
                        Some((p, e)) => match sp_ws_char(s, e, ')') {
                            None => None,
                            Some(f) => Some((ClauseV::CreateIndex { label: l, property: p }, f)),
                        },
                    },
                },
            },
        },
    }
}

/// A keyword followed by one or more paths.
pub open spec fn sp_kw_paths(s: Seq<char>, i: int, t1: Seq<char>, t2: Seq<char>) -> Option<(Seq<crate::parser::PathV>, int)> {
    match sp_ws_kw(s, i, t1, t2) {
        None => None,
        Some(a) => sp_paths(s, a),
    }
}

/// `MATCH paths [WHERE condition]`.
pub open spec fn sp_match(s: Seq<char>, i: int) -> Option<(ClauseV, int)> {
    match sp_kw_paths(s, i, "MATCH"@, "match"@) {
        None => None,
        Some((ps, b)) => match sp_where(s, b) {
            Some((c, d)) => Some((ClauseV::Match(ps, Some(c)), d)),
            None => Some((ClauseV::Match(ps, None), b)),
        },
    }
}

/// `SET var.prop = value`.
pub open spec fn sp_set(s: Seq<char>, i: int) -> Option<(ClauseV, int)> {
    match sp_ws_kw(s, i, "SET"@, "set"@) {
        None => None,
        Some(a) => match sp_ws_identifier(s, a) {
            None => None,
            Some((v, b)) => match sp_ws_char(s, b, '.') {
                None => None,
                Some(c) => match sp_ws_identifier(s, c) {
                    None => None,
                    Some((p, d)) => match sp_ws_char(s, d, '=') {
                        None => None,
                        Some(e) => match sp_value_or_ident(s, e) {
                            None => None,
                            Some((val, f)) => Some((ClauseV::SetProperty(v, p, val), f)),
                        },
                    },
                },
            },
        },
    }
}

/// `WITH items [ORDER BY ...]`, with zero or more items.
pub open spec fn sp_with(s: Seq<char>, i: int) -> Option<(ClauseV, int)> {
    match sp_ws_kw(s, i, "WITH"@, "with"@) {
        None => None,
        Some(a) => {
            let (its, b) = sep0(s, a, ',', item_parser());
            let (o, c) = sp_opt_order_by(s, b);
            Some((ClauseV::With(its, o), c))
        },
    }
}

/// `RETURN items [ORDER BY ...] [LIMIT n]`.
pub open spec fn sp_return(s: Seq<char>, i: int) -> Option<(ClauseV, int)> {
    match sp_ws_kw(s, i, "RETURN"@, "return"@) {
        None => None,
        Some(a) => match sep1(s, a, ',', item_parser()) {
            None => None,
            Some((its, b)) => {
                let (o, c) = sp_opt_order_by(s, b);
                let (l, d) = sp_opt_limit(s, c);
                Some((ClauseV::Return(its, o, l), d))
            },
        },
    }
}

/// `UNWIND items`.
pub open spec fn sp_unwind(s: Seq<char>, i: int) -> Option<(ClauseV, int)> {
    match sp_ws_kw(s, i, "UNWIND"@, "unwind"@) {
        None => None,
        Some(a) => match sep1(s, a, ',', item_parser()) {
            None => None,
            Some((its, b)) => Some((ClauseV::Unwind(its), b)),
        },
    }
}

/// `DELETE var, ...`.
pub open spec fn sp_delete(s: Seq<char>, i: int) -> Option<(ClauseV, int)> {
    match sp_ws_kw(s, i, "DELETE"@, "delete"@) {
        None => None,
        Some(a) => match sep1(s, a, ',', ws_identifier_parser()) {
            None => None,
            Some((vs, b)) => Some((ClauseV::Delete(vs), b)),
        },
    }
}

/// A clause that holds no other clause, tried in the order of the grammar.
pub open spec fn sp_simple_clause(s: Seq<char>, i: int) -> Option<(ClauseV, int)> {
    match sp_create_index(s, i) {
        Some(r) => Some(r),
        None => match sp_kw_paths(s, i, "CREATE"@, "create"@) {
            Some((ps, a)) => Some((ClauseV::Create(ps), a)),
            None => match sp_match(s, i) {
                Some(r) => Some(r),
                None => match sp_kw_paths(s, i, "MERGE"@, "merge"@) {
                    Some((ps, a)) => Some((ClauseV::Merge(ps), a)),
                    None => match sp_set(s, i) {
                        Some(r) => Some(r),
                        None => match sp_with(s, i) {
                            Some(r) => Some(r),
                            None => match sp_return(s, i) {
                                Some(r) => Some(r),
                                None => match sp_unwind(s, i) {
                                    Some(r) => Some(r),
                                    None => sp_delete(s, i),
                                },
                            },
                        },
                    },
                },
            },
        },
    }
}

/// A clause with white space around it; `CALL { clauses }` is tried last.
pub open spec fn sp_clause(s: Seq<char>, i: int) -> Option<(ClauseV, int)>
    decreases s.len() - i, 0int,
{
    let j = skip_ws(s, i);
    match sp_simple_clause(s, j) {
        Some((c, k)) => Some((c, skip_ws(s, k))),
        None => match sp_ws_kw(s, j, "CALL"@, "call"@) {
            None => None,
            Some(a) => match sp_ws_char(s, a, '{') {
                None => None,
                Some(b) => {
                    if 0 <= i <= s.len() && 0 < "CALL"@.len() && 0 < "call"@.len() {
                        proof {
                            lemma_skip_ws(s, i);
                            lemma_ws_kw_progress(s, j, "CALL"@, "call"@);
                            lemma_ws_char_progress(s, a, '{');
                        }
                        let (cs, c) = sp_clauses(s, b);
                        match sp_ws_char(s, c, '}') {
                            None => None,
                            Some(d) => Some((ClauseV::Call(cs), skip_ws(s, d))),
                        }
                    } else {
                        None
                    }
                },
            },
        },
    }
}

/// Zero or more clauses, one after the other.
pub open spec fn sp_clauses(s: Seq<char>, i: int) -> (Seq<ClauseV>, int)
    decreases s.len() - i, 1int,
{
    match sp_clause(s, i) {
        None => (Seq::empty(), i),
        Some((c, m)) => if i < m <= s.len() {
            (seq![c] + sp_clauses(s, m).0, sp_clauses(s, m).1)
        } else {
            (Seq::empty(), i)
        },
    }
}

/// A whole query: `Ok` with its syntax tree when the clauses take up all the text, else `Err`
/// with the position of the first character that no clause took.
pub open spec fn sp_query(s: Seq<char>) -> Result<QueryV, int> {
    let (profile, a) = match sp_ws_kw(s, 0, "PROFILE"@, "profile"@) {
        Some(j) => (true, j),
        None => (false, 0int),
    };
    let (cs, b) = sp_clauses(s, a);
    if b == s.len() {
        Ok(QueryV { profile: profile, clauses: cs })
    } else {
        Err(b)
    }
}

// ---------------------------------------------------------------------------------------------
// Executable parsers for projections and orderings.

fn alias_exec(cs: &Vec<char>, i: usize) -> (r: (Option<String>, usize))
    requires
        i <= cs@.len(),
    ensures
        (crate::parser::opt_str_view(r.0), r.1 as int) == sp_alias(cs@, i as int),
        i <= r.1 <= cs@.len(),
{
    proof { reveal_strlit("AS"); reveal_strlit("as"); }
    match ws_kw_exec(cs, i, "AS", "as") {
        Some(j) => match ws_identifier_exec(cs, j) {
            Some((a, k)) => (Some(a), k),
            None => (None, i),
        },
        None => (None, i),
    }
}

fn aggregate_name_exec(cs: &Vec<char>, i: usize) -> (r: Option<(String, usize)>)
    requires
        i <= cs@.len(),
    ensures
        match r {
            Some((f, k)) => sp_aggregate_name(cs@, i as int) == Some((f@, k as int)) && i < k <= cs@.len(),
            None => sp_aggregate_name(cs@, i as int) is None,
        },
{
    proof {
        reveal_strlit("COUNT"); reveal_strlit("count");
        reveal_strlit("COLLECT"); reveal_strlit("collect");
        reveal_strlit("UNIQUE"); reveal_strlit("unique");
    }
    match ws_kw_exec(cs, i, "COUNT", "count") {
        Some(j) => return Some((crate::text::own("COUNT"), j)),
        None => {},
    }
    match ws_kw_exec(cs, i, "COLLECT", "collect") {
        Some(j) => return Some((crate::text::own("COLLECT"), j)),
        None => {},
    }
    match ws_kw_exec(cs, i, "UNIQUE", "unique") {
        Some(j) => Some((crate::text::own("UNIQUE"), j)),
        None => None,
    }
}

fn aggregate_exec(cs: &Vec<char>, i: usize) -> (r: Option<(ProjectionItem, usize)>)
    requires
        i <= cs@.len(),
    ensures
        match r {
            Some((it, k)) => sp_aggregate(cs@, i as int) == Some((it@, k as int)) && i < k <= cs@.len(),
            None => sp_aggregate(cs@, i as int) is None,
        },
{
    match aggregate_name_exec(cs, i) {
        None => None,
        Some((f, a)) => match ws_char_exec(cs, a, '(') {
            None => None,
            Some(b) => {
                let arg: Option<(String, usize)> = match ws_identifier_exec(cs, b) {
                    Some(r) => Some(r),
                    None => match ws_char_exec(cs, b, '*') {
                        Some(j) => {
                            let mut t = String::new();
                            crate::text::push_char(&mut t, '*');
                            assert(t@ =~= seq!['*']);
                            Some((t, j))
                        },
                        None => None,
                    },
                };
                assert(arg matches Some((v, c)) ==> sp_aggregate_arg(cs@, b as int) == Some((v@, c as int)) && c <= cs@.len());
                assert(arg is None ==> sp_aggregate_arg(cs@, b as int) is None);
                match arg {
                    None => None,
                    Some((v, c)) => match ws_char_exec(cs, c, ')') {
                        None => None,
                        Some(d) => {
                            let (al, e) = alias_exec(cs, d);
                            Some((ProjectionItem::Aggregate { func: f, var: v, alias: al }, e))
                        },
                    },
                }
            },
        },
    }
}

fn expr_sep_rest_exec(cs: &Vec<char>, j: usize) -> (r: (Vec<Expression>, usize))
    requires
        j <= cs@.len(),
    ensures
        (exprs_view(r.0@), r.1 as int) == sep_rest(cs@, j as int, ',', expression_parser()),
        j <= r.1 <= cs@.len(),
    decreases cs@.len() - j,
{
    match ws_char_exec(cs, j, ',') {
        None => {
            assert(exprs_view(Seq::<Expression>::empty()) == Seq::<ExprV>::empty());
            (Vec::new(), j)
        },
        Some(k) => match expression_exec(cs, k) {
            None => {
                assert(exprs_view(Seq::<Expression>::empty()) == Seq::<ExprV>::empty());
                (Vec::new(), j)
            },
            Some((e, m)) => {
                let (mut rest, f) = expr_sep_rest_exec(cs, m);
                let ghost rv = rest@;
                proof { lemma_exprs_view_cons(e, rv); }
                rest.insert(0, e);
                assert(rest@ =~= seq![e] + rv);
                (rest, f)
            },
        },
    }
}

fn expr_sep0_exec(cs: &Vec<char>, i: usize) -> (r: (Vec<Expression>, usize))
    requires
        i <= cs@.len(),
    ensures
        (exprs_view(r.0@), r.1 as int) == sep0(cs@, i as int, ',', expression_parser()),
        i <= r.1 <= cs@.len(),
{
    match expression_exec(cs, i) {
        None => {
            assert(exprs_view(Seq::<Expression>::empty()) == Seq::<ExprV>::empty());
            (Vec::new(), i)
        },
        Some((e, m)) => {
            let (mut rest, f) = expr_sep_rest_exec(cs, m);
            let ghost rv = rest@;
            proof { lemma_exprs_view_cons(e, rv); }
            rest.insert(0, e);
            assert(rest@ =~= seq![e] + rv);
            (rest, f)
        },
    }
}

fn item_function_exec(cs: &Vec<char>, i: usize) -> (r: Option<(ProjectionItem, usize)>)
    requires
        i <= cs@.len(),
    ensures
        match r {
            Some((it, k)) => sp_item_function(cs@, i as int) == Some((it@, k as int)) && i < k <= cs@.len(),
            None => sp_item_function(cs@, i as int) is None,
        },
{
    match ws_identifier_exec(cs, i) {
        None => None,
        Some((f, a)) => match ws_char_exec(cs, a, '(') {
            None => None,
            Some(b) => {
                let (args, c) = expr_sep0_exec(cs, b);
                match ws_char_exec(cs, c, ')') {
                    None => None,
                    Some(d) => {
                        let (al, e) = alias_exec(cs, d);
                        Some((ProjectionItem::Function { func: f, args: args, alias: al }, e))
                    },
                }
            },
        },
    }
}

pub fn item_exec(cs: &Vec<char>, i: usize) -> (r: Option<(ProjectionItem, usize)>)
    requires
        i <= cs@.len(),
    ensures
        match r {
            Some((it, k)) => sp_item(cs@, i as int) == Some((it@, k as int)) && i < k <= cs@.len(),
            None => sp_item(cs@, i as int) is None,
        },
{
    match ws_char_exec(cs, i, '*') {
        Some(j) => return Some((ProjectionItem::Star, j)),
        None => {},
    }
    match aggregate_exec(cs, i) {
        Some(r) => return Some(r),
        None => {},
    }
    match item_function_exec(cs, i) {
        Some(r) => return Some(r),
        None => {},
    }
    match ws_identifier_exec(cs, i) {
        None => None,
        Some((v, j)) => match alias_exec(cs, j) {
            (Some(a), k) => Some((ProjectionItem::AliasedVariable(v, a), k)),
            (None, _) => Some((ProjectionItem::Variable(v), j)),
        },
    }
}

fn items_rest_exec(cs: &Vec<char>, j: usize) -> (r: (Vec<ProjectionItem>, usize))
    requires
        j <= cs@.len(),
    ensures
        (items_view(r.0@), r.1 as int) == sep_rest(cs@, j as int, ',', item_parser()),
        j <= r.1 <= cs@.len(),
    decreases cs@.len() - j,
{
    match ws_char_exec(cs, j, ',') {
        None => {
            assert(items_view(Seq::<ProjectionItem>::empty()) =~= Seq::<ItemV>::empty());
            (Vec::new(), j)
        },
        Some(k) => match item_exec(cs, k) {
            None => {
                assert(items_view(Seq::<ProjectionItem>::empty()) =~= Seq::<ItemV>::empty());
                (Vec::new(), j)
            },
            Some((it, m)) => {
                let (mut rest, f) = items_rest_exec(cs, m);
                let ghost rv = rest@;
                rest.insert(0, it);
                assert(items_view(rest@) =~= seq![it@] + items_view(rv));
                (rest, f)
            },
        },
    }
}

fn items1_exec(cs: &Vec<char>, i: usize) -> (r: Option<(Vec<ProjectionItem>, usize)>)
    requires
        i <= cs@.len(),
    ensures
        match r {
            Some((its, k)) => sep1(cs@, i as int, ',', item_parser()) == Some((items_view(its@), k as int)) && i < k <= cs@.len(),
            None => sep1(cs@, i as int, ',', item_parser()) is None,
        },
{
    match item_exec(cs, i) {
        None => None,
        Some((it, m)) => {
            let (mut rest, f) = items_rest_exec(cs, m);
            let ghost rv = rest@;
            rest.insert(0, it);
            assert(items_view(rest@) =~= seq![it@] + items_view(rv));
            Some((rest, f))
        },
    }
}

fn items0_exec(cs: &Vec<char>, i: usize) -> (r: (Vec<ProjectionItem>, usize))
    requires
        i <= cs@.len(),
    ensures
        (items_view(r.0@), r.1 as int) == sep0(cs@, i as int, ',', item_parser()),
        i <= r.1 <= cs@.len(),
{
    match items1_exec(cs, i) {
        Some(r) => r,
        None => {
            assert(items_view(Seq::<ProjectionItem>::empty()) =~= Seq::<ItemV>::empty());
            (Vec::new(), i)
        },
    }
}

fn order_item_exec(cs: &Vec<char>, i: usize) -> (r: Option<(OrderItem, usize)>)
    requires
        i <= cs@.len(),
    ensures
        match r {
            Some((o, k)) => sp_order_item(cs@, i as int) == Some((o@, k as int)) && i < k <= cs@.len(),
            None => sp_order_item(cs@, i as int) is None,
        },
{
    proof { reveal_strlit("ASC"); reveal_strlit("asc"); reveal_strlit("DESC"); reveal_strlit("desc"); }
    match expression_exec(cs, i) {
        None => None,
        Some((e, j)) => match ws_kw_exec(cs, j, "ASC", "asc") {
            Some(k) => Some((OrderItem { expr: e, asc: true }, k)),
            None => match ws_kw_exec(cs, j, "DESC", "desc") {
                Some(k) => Some((OrderItem { expr: e, asc: false }, k)),
                None => Some((OrderItem { expr: e, asc: true }, j)),
            },
        },
    }
}

fn order_rest_exec(cs: &Vec<char>, j: usize) -> (r: (Vec<OrderItem>, usize))
    requires
        j <= cs@.len(),
    ensures
        (order_view(r.0@), r.1 as int) == sep_rest(cs@, j as int, ',', order_item_parser()),
        j <= r.1 <= cs@.len(),
    decreases cs@.len() - j,
{
    match ws_char_exec(cs, j, ',') {
        None => {
            assert(order_view(Seq::<OrderItem>::empty()) =~= Seq::<OrderItemV>::empty());
            (Vec::new(), j)
        },
        Some(k) => match order_item_exec(cs, k) {
            None => {
                assert(order_view(Seq::<OrderItem>::empty()) =~= Seq::<OrderItemV>::empty());
                (Vec::new(), j)
            },
            Some((o, m)) => {
                let (mut rest, f) = order_rest_exec(cs, m);
                let ghost rv = rest@;
                rest.insert(0, o);
                assert(order_view(rest@) =~= seq![o@] + order_view(rv));
                (rest, f)
            },
        },
    }
}

fn opt_order_by_exec(cs: &Vec<char>, i: usize) -> (r: (Option<Vec<OrderItem>>, usize))
    requires
        i <= cs@.len(),
    ensures
        (opt_order_view(r.0), r.1 as int) == sp_opt_order_by(cs@, i as int),
        i <= r.1 <= cs@.len(),
{
    proof { reveal_strlit("ORDER BY"); reveal_strlit("order by"); }
    match ws_kw_exec(cs, i, "ORDER BY", "order by") {
        None => (None, i),
        Some(j) => match order_item_exec(cs, j) {
            None => (None, i),
            Some((o, m)) => {
                let (mut rest, f) = order_rest_exec(cs, m);
                let ghost rv = rest@;
                rest.insert(0, o);
                assert(order_view(rest@) =~= seq![o@] + order_view(rv));
                (Some(rest), f)
            },
        },
    }
}

fn opt_limit_exec(cs: &Vec<char>, i: usize) -> (r: (Option<usize>, usize))
    requires
        i <= cs@.len(),
    ensures
        (r.0, r.1 as int) == sp_opt_limit(cs@, i as int),
        i <= r.1 <= cs@.len(),
{
    proof { reveal_strlit("LIMIT"); reveal_strlit("limit"); }
    match ws_kw_exec(cs, i, "LIMIT", "limit") {
        None => (None, i),
        Some(j) => match ws_number_exec(cs, j) {
            None => (None, i),
            Some((n, k)) => (n, k),
        },
    }
}

// ---------------------------------------------------------------------------------------------
// Well-formed clauses and their executable parsers.

/// Every property map and value that a clause holds is well formed.
pub open spec fn clause_wf(c: Clause) -> bool
    decreases c,
{
    match c {
        Clause::Create(ps) => paths_wf(ps@),
        Clause::Match(ps, c) => paths_wf(ps@) && (c matches Some(x) ==> crate::parser::condv_wf(x@)),
        Clause::Merge(ps) => paths_wf(ps@),
        Clause::SetProperty(_, _, v) => v.wf(),
        Clause::Call(cs) => clauses_wf(cs@),
        _ => true,
    }
}

/// Every clause of the list is well formed.
pub open spec fn clauses_wf(cs: Seq<Clause>) -> bool
    decreases cs,
{
    if cs.len() == 0 {
        true
    } else {
        clauses_wf(cs.subrange(0, cs.len() - 1)) && clause_wf(cs[cs.len() - 1])
    }
}

/// A list of clauses is well formed exactly when each of them is.
pub proof fn lemma_clauses_wf(cs: Seq<Clause>)
    ensures
        clauses_wf(cs) <==> (forall|i: int| 0 <= i < cs.len() ==> #[trigger] clause_wf(cs[i])),
    decreases cs.len(),
{
    if cs.len() > 0 {
        let t = cs.subrange(0, cs.len() - 1);
        lemma_clauses_wf(t);
        assert(clauses_wf(cs) == (clauses_wf(t) && clause_wf(cs[cs.len() - 1])));
        if clauses_wf(cs) {
            assert forall|i: int| 0 <= i < cs.len() implies #[trigger] clause_wf(cs[i]) by {
                if i < cs.len() - 1 {
                    assert(t[i] == cs[i]);
                }
            }
        }
        if forall|i: int| 0 <= i < cs.len() ==> #[trigger] clause_wf(cs[i]) {
            assert forall|i: int| 0 <= i < t.len() implies #[trigger] clause_wf(t[i]) by {
                assert(t[i] == cs[i]);
            }
            assert(clause_wf(cs[cs.len() - 1]));
        }
    }
}

fn create_index_exec(cs: &Vec<char>, i: usize) -> (r: Option<(Clause, usize)>)
    requires
        i <= cs@.len(),
    ensures
        match r {
            Some((c, k)) => sp_create_index(cs@, i as int) == Some((c@, k as int)) && i < k <= cs@.len() && clause_wf(c),
            None => sp_create_index(cs@, i as int) is None,
        },
{
    proof { reveal_strlit("CREATE INDEX ON"); reveal_strlit("create index on"); }
    match ws_kw_exec(cs, i, "CREATE INDEX ON", "create index on") {
        None => None,
        Some(a) => match ws_char_exec(cs, a, ':') {
            None => None,
            Some(b) => match ws_identifier_exec(cs, b) {
                None => None,
                Some((l, c)) => match ws_char_exec(cs, c, '(') {
                    None => None,
                    Some(d) => match ws_identifier_exec(cs, d) {
                        None => None,
                        Some((p, e)) => match ws_char_exec(cs, e, ')') {
                            None => None,
                            Some(f) => Some((Clause::CreateIndex { label: l, property: p }, f)),
                        },
                    },
                },
            },
        },
    }
}

fn kw_paths_exec(cs: &Vec<char>, i: usize, t1: &str, t2: &str) -> (r: Option<(Vec<crate::parser::Path>, usize)>)
    requires
        i <= cs@.len(),
        t1@.len() > 0,
        t2@.len() > 0,
    ensures
        match r {
            Some((ps, k)) => sp_kw_paths(cs@, i as int, t1@, t2@) == Some((paths_view(ps@), k as int)) && i < k <= cs@.len() && paths_wf(ps@),
            None => sp_kw_paths(cs@, i as int, t1@, t2@) is None,
        },
{
    match ws_kw_exec(cs, i, t1, t2) {
        None => None,
        Some(a) => paths_exec(cs, a),
    }
}

fn match_exec(cs: &Vec<char>, i: usize) -> (r: Option<(Clause, usize)>)
    requires
        i <= cs@.len(),
    ensures
        match r {
            Some((c, k)) => sp_match(cs@, i as int) == Some((c@, k as int)) && i < k <= cs@.len() && clause_wf(c),
            None => sp_match(cs@, i as int) is None,
        },
{
    proof { reveal_strlit("MATCH"); reveal_strlit("match"); }
    match kw_paths_exec(cs, i, "MATCH", "match") {
        None => None,
        Some((ps, b)) => match where_exec(cs, b) {
            Some((c, d)) => Some((Clause::Match(ps, Some(c)), d)),
            None => Some((Clause::Match(ps, None), b)),
        },
    }
}

fn set_exec(cs: &Vec<char>, i: usize) -> (r: Option<(Clause, usize)>)
    requires
        i <= cs@.len(),
    ensures
        match r {
            Some((c, k)) => sp_set(cs@, i as int) == Some((c@, k as int)) && i < k <= cs@.len() && clause_wf(c),
            None => sp_set(cs@, i as int) is None,
        },
{
    proof { reveal_strlit("SET"); reveal_strlit("set"); }
    match ws_kw_exec(cs, i, "SET", "set") {
        None => None,
        Some(a) => match ws_identifier_exec(cs, a) {
            None => None,
            Some((v, b)) => match ws_char_exec(cs, b, '.') {
                None => None,
                Some(c) => match ws_identifier_exec(cs, c) {
                    None => None,
                    Some((p, d)) => match ws_char_exec(cs, d, '=') {
                        None => None,
                        Some(e) => match value_or_ident_exec(cs, e) {
                            None => None,
                            Some((val, f)) => Some((Clause::SetProperty(v, p, val), f)),
                        },
                    },
                },
            },
        },
    }
}

fn with_exec(cs: &Vec<char>, i: usize) -> (r: Option<(Clause, usize)>)
    requires
        i <= cs@.len(),
    ensures
        match r {
            Some((c, k)) => sp_with(cs@, i as int) == Some((c@, k as int)) && i < k <= cs@.len() && clause_wf(c),
            None => sp_with(cs@, i as int) is None,
        },
{
    proof { reveal_strlit("WITH"); reveal_strlit("with"); }
    match ws_kw_exec(cs, i, "WITH", "with") {
        None => None,
        Some(a) => {
            let (its, b) = items0_exec(cs, a);
            let (o, c) = opt_order_by_exec(cs, b);
            Some((Clause::With(its, o), c))
        },
    }
}

fn return_exec(cs: &Vec<char>, i: usize) -> (r: Option<(Clause, usize)>)
    requires
        i <= cs@.len(),
    ensures
        match r {
            Some((c, k)) => sp_return(cs@, i as int) == Some((c@, k as int)) && i < k <= cs@.len() && clause_wf(c),
            None => sp_return(cs@, i as int) is None,
        },
{
    proof { reveal_strlit("RETURN"); reveal_strlit("return"); }
    match ws_kw_exec(cs, i, "RETURN", "return") {
        None => None,
        Some(a) => match items1_exec(cs, a) {
            None => None,
            Some((its, b)) => {
                let (o, c) = opt_order_by_exec(cs, b);
                let (l, d) = opt_limit_exec(cs, c);
                Some((Clause::Return(its, o, l), d))
            },
        },
    }
}

fn unwind_exec(cs: &Vec<char>, i: usize) -> (r: Option<(Clause, usize)>)
    requires
        i <= cs@.len(),
    ensures
        match r {
            Some((c, k)) => sp_unwind(cs@, i as int) == Some((c@, k as int)) && i < k <= cs@.len() && clause_wf(c),
            None => sp_unwind(cs@, i as int) is None,
        },
{
    proof { reveal_strlit("UNWIND"); reveal_strlit("unwind"); }
    match ws_kw_exec(cs, i, "UNWIND", "unwind") {
        None => None,
        Some(a) => match items1_exec(cs, a) {
            None => None,
            Some((its, b)) => Some((Clause::Unwind(its), b)),
        },
    }
}

fn names_rest_exec(cs: &Vec<char>, j: usize) -> (r: (Vec<String>, usize))
    requires
        j <= cs@.len(),
    ensures
        (names_view(r.0@), r.1 as int) == sep_rest(cs@, j as int, ',', ws_identifier_parser()),
        j <= r.1 <= cs@.len(),
    decreases cs@.len() - j,
{
    match ws_char_exec(cs, j, ',') {
        None => {
            assert(names_view(Seq::<String>::empty()) =~= Seq::<Seq<char>>::empty());
            (Vec::new(), j)
        },
        Some(k) => match ws_identifier_exec(cs, k) {
            None => {
                assert(names_view(Seq::<String>::empty()) =~= Seq::<Seq<char>>::empty());
                (Vec::new(), j)
            },
            Some((v, m)) => {
                proof { lemma_ws_identifier_progress(cs@, k as int); }
                let (mut rest, f) = names_rest_exec(cs, m);
                let ghost rv = rest@;
                rest.insert(0, v);
                assert(names_view(rest@) =~= seq![v@] + names_view(rv));
                (rest, f)
            },
        },
    }
}

fn delete_exec(cs: &Vec<char>, i: usize) -> (r: Option<(Clause, usize)>)
    requires
        i <= cs@.len(),
    ensures
        match r {
            Some((c, k)) => sp_delete(cs@, i as int) == Some((c@, k as int)) && i < k <= cs@.len() && clause_wf(c),
            None => sp_delete(cs@, i as int) is None,
        },
{
    proof { reveal_strlit("DELETE"); reveal_strlit("delete"); }
    match ws_kw_exec(cs, i, "DELETE", "delete") {
        None => None,
        Some(a) => match ws_identifier_exec(cs, a) {
            None => None,
            Some((v, m)) => {
                proof { lemma_ws_identifier_progress(cs@, a as int); }
                let (mut rest, f) = names_rest_exec(cs, m);
                let ghost rv = rest@;
                rest.insert(0, v);
                assert(names_view(rest@) =~= seq![v@] + names_view(rv));
                Some((Clause::Delete(rest), f))
            },
        },
    }
}

fn simple_clause_exec(cs: &Vec<char>, i: usize) -> (r: Option<(Clause, usize)>)
    requires
        i <= cs@.len(),
    ensures
        match r {
            Some((c, k)) => sp_simple_clause(cs@, i as int) == Some((c@, k as int)) && i < k <= cs@.len() && clause_wf(c),
            None => sp_simple_clause(cs@, i as int) is None,
        },
{
    proof { reveal_strlit("CREATE"); reveal_strlit("create"); reveal_strlit("MERGE"); reveal_strlit("merge"); }
    match create_index_exec(cs, i) {
        Some(r) => return Some(r),
        None => {},
    }
    match kw_paths_exec(cs, i, "CREATE", "create") {
        Some((ps, a)) => return Some((Clause::Create(ps), a)),
        None => {},
    }
    match match_exec(cs, i) {
        Some(r) => return Some(r),
        None => {},
    }
    match kw_paths_exec(cs, i, "MERGE", "merge") {
        Some((ps, a)) => return Some((Clause::Merge(ps), a)),
        None => {},
    }
    match set_exec(cs, i) {
        Some(r) => return Some(r),
        None => {},
    }
    match with_exec(cs, i) {
        Some(r) => return Some(r),
        None => {},
    }
    match return_exec(cs, i) {
        Some(r) => return Some(r),
        None => {},
    }
    match unwind_exec(cs, i) {
        Some(r) => return Some(r),
        None => {},
    }
    delete_exec(cs, i)
}

fn clause_exec(cs: &Vec<char>, i: usize) -> (r: Option<(Clause, usize)>)
    requires
        i <= cs@.len(),
    ensures
        match r {
            Some((c, k)) => sp_clause(cs@, i as int) == Some((c@, k as int)) && i < k <= cs@.len() && clause_wf(c),
            None => sp_clause(cs@, i as int) is None,
        },
    decreases cs@.len() - i, 0int,
{
    proof { reveal_strlit("CALL"); reveal_strlit("call"); }
    let j = skip_ws_exec(cs, i);
    match simple_clause_exec(cs, j) {
        Some((c, k)) => return Some((c, skip_ws_exec(cs, k))),
        None => {},
    }
    match ws_kw_exec(cs, j, "CALL", "call") {
        None => None,
        Some(a) => match ws_char_exec(cs, a, '{') {
            None => None,
            Some(b) => {
                let (body, c) = clauses_exec(cs, b);
                match ws_char_exec(cs, c, '}') {
                    None => None,
                    Some(d) => {
                        let e = skip_ws_exec(cs, d);
                        Some((Clause::Call(body), e))
                    },
                }
            },
        },
    }
}

fn clauses_exec(cs: &Vec<char>, i: usize) -> (r: (Vec<Clause>, usize))
    requires
        i <= cs@.len(),
    ensures
        (clauses_view(r.0@), r.1 as int) == sp_clauses(cs@, i as int),
        i <= r.1 <= cs@.len(),
        clauses_wf(r.0@),
    decreases cs@.len() - i, 1int,
{
    match clause_exec(cs, i) {
        None => {
            assert(clauses_view(Seq::<Clause>::empty()) == Seq::<ClauseV>::empty());
            (Vec::new(), i)
        },
        Some((c, m)) => {
            let (mut rest, f) = clauses_exec(cs, m);
            let ghost rv = rest@;
            proof {
                lemma_clauses_view_cons(c, rv);
                lemma_clauses_wf(rv);
            }
            rest.insert(0, c);
            assert(rest@ =~= seq![c] + rv);
            proof {
                assert forall|x: int| 0 <= x < rest@.len() implies #[trigger] clause_wf(rest@[x]) by {
                    if x > 0 { assert(rest@[x] == rv[x - 1]); }
                }
                lemma_clauses_wf(rest@);
            }
            (rest, f)
        },
    }
}

/// Why a query did not parse: the text left over after the last clause that parsed.
pub open spec fn parse_error_input(s: Seq<char>, at: int) -> Seq<char> {
    s.subrange(at, s.len() as int)
}

/// Parses a query. It succeeds exactly when the optional `PROFILE` and the clauses that follow
/// take up the whole text; the error then holds the text from the first character no clause took.
pub fn parse_query(input: &str) -> (r: Result<Query, crate::parser::ParseError>)
    ensures
        match r {
            Ok(q) => sp_query(input@) == Ok::<QueryV, int>(q@) && clauses_wf(q.clauses@),
            Err(e) => sp_query(input@) matches Err(at) && 0 <= at <= input@.len() && e.input@ == parse_error_input(input@, at),
        },
{
    proof { reveal_strlit("PROFILE"); reveal_strlit("profile"); }
    let cs = crate::text::chars_of(input);
    let (profile, a) = match ws_kw_exec(&cs, 0, "PROFILE", "profile") {
        Some(j) => (true, j),
        None => (false, 0usize),
    };
    let (clauses, b) = clauses_exec(&cs, a);
    if b == cs.len() {
        Ok(Query { profile: profile, clauses: clauses })
    } else {
        let rest = crate::text::string_from_chars(&cs, b, cs.len());
        Err(crate::parser::ParseError { input: rest })
    }
}

/// Parses `WHERE condition` at the start of `input`: the text that follows it and the condition,
/// or `None` when no such clause starts there.
pub fn where_clause(input: &str) -> (r: Option<(String, crate::parser::Condition)>)
    ensures
        match r {
            Some((rest, c)) => sp_where(input@, 0) matches Some((cv, k)) && cv == c@ && 0 < k <= input@.len()
                && rest@ == input@.subrange(k, input@.len() as int),
            None => sp_where(input@, 0) is None,
        },
{
    let cs = crate::text::chars_of(input);
    match where_exec(&cs, 0) {
        None => None,
        Some((c, k)) => {
            let rest = crate::text::string_from_chars(&cs, k, cs.len());
            Some((rest, c))
        },
    }
}

} // verus!
