use vstd::prelude::*;
use crate::parser::grammar::{lemma_ws_char_progress, lemma_ws_kw_progress};
use crate::parser::lexical::{
    char_exec, identifier_exec, lemma_skip_ws, skip_ws, skip_ws_exec, sp_char, sp_identifier, sp_string_literal, sp_tag,
    sp_ws_char, sp_ws_kw, string_literal_exec, tag_exec, ws_char_exec, ws_kw_exec,
};

verus! {

/// An operand of a `WHERE` comparison: `variable.property`, or a literal (a quoted text or a bare
/// word).
#[derive(Debug)]
pub enum Expr {
    VariableProperty(String, String),
    Literal(String),
}

/// A comparison operator of a `WHERE` clause.
#[derive(Debug, Clone, Copy, PartialEq, Eq)]
pub enum Operator {
    Eq,
    Neq,
    Gt,
    Lt,
    Gte,
    Lte,
}

/// A `WHERE` condition.
#[derive(Debug)]
pub enum Condition {
    And(Box<Condition>, Box<Condition>),
    Or(Box<Condition>, Box<Condition>),
    Not(Box<Condition>),
    Compare { left: Expr, op: Operator, right: Expr },
}

/// The mathematical form of an [`Expr`].
pub enum WExprV {
    VariableProperty(Seq<char>, Seq<char>),
    Literal(Seq<char>),
}

/// The mathematical form of a [`Condition`].
pub enum WCondV {
    And(Box<WCondV>, Box<WCondV>),
    Or(Box<WCondV>, Box<WCondV>),
    Not(Box<WCondV>),
    Compare { left: WExprV, op: Operator, right: WExprV },
}

impl View for Expr {
    type V = WExprV;

    open spec fn view(&self) -> WExprV {
        match self {
            Expr::VariableProperty(v, p) => WExprV::VariableProperty(v@, p@),
            Expr::Literal(s) => WExprV::Literal(s@),
        }
    }
}

/// The view of a condition.
pub open spec fn wcond_view(c: Condition) -> WCondV
    decreases c,
{
    match c {
        Condition::And(l, r) => WCondV::And(Box::new(wcond_view(*l)), Box::new(wcond_view(*r))),
        Condition::Or(l, r) => WCondV::Or(Box::new(wcond_view(*l)), Box::new(wcond_view(*r))),
        Condition::Not(x) => WCondV::Not(Box::new(wcond_view(*x))),
        Condition::Compare { left, op, right } => WCondV::Compare { left: left@, op: op, right: right@ },
    }
}

impl View for Condition {
    type V = WCondV;

    open spec fn view(&self) -> WCondV {
        wcond_view(*self)
    }
}

// ---------------------------------------------------------------------------------------------
// The grammar.

/// An operand at `i`: `identifier.identifier`; else a quoted text or an identifier as a literal.
pub open spec fn w_expr(s: Seq<char>, i: int) -> Option<(WExprV, int)> {
    let prop: Option<(WExprV, int)> = match sp_identifier(s, i) {
        Some((v, j)) => match sp_char(s, j, '.') {
            Some(k) => match sp_identifier(s, k) {
                Some((p, m)) => Some((WExprV::VariableProperty(v, p), m)),
                None => None,
            },
            None => None,
        },
        None => None,
    };
    match prop {
        Some(r) => Some(r),
        None => match sp_string_literal(s, i) {
            Some((t, k)) => Some((WExprV::Literal(t), k)),
            None => match sp_identifier(s, i) {
                Some((v, j)) => Some((WExprV::Literal(v), j)),
                None => None,
            },
        },
    }
}

/// An operand with white space around it.
pub open spec fn w_ws_expr(s: Seq<char>, i: int) -> Option<(WExprV, int)> {
    match w_expr(s, skip_ws(s, i)) {
        Some((e, j)) => Some((e, skip_ws(s, j))),
        None => None,
    }
}

/// An operator at `j`: `=`, `<>`, `>=`, `<=`, `>` or `<`, tried in that order.
pub open spec fn w_op(s: Seq<char>, j: int) -> Option<(Operator, int)> {
    match sp_char(s, j, '=') {
        Some(k) => Some((Operator::Eq, k)),
        None => match sp_tag(s, j, seq!['<', '>']) {
            Some(k) => Some((Operator::Neq, k)),
            None => match sp_tag(s, j, seq!['>', '=']) {
                Some(k) => Some((Operator::Gte, k)),
                None => match sp_tag(s, j, seq!['<', '=']) {
                    Some(k) => Some((Operator::Lte, k)),
                    None => match sp_char(s, j, '>') {
                        Some(k) => Some((Operator::Gt, k)),
                        None => match sp_char(s, j, '<') {
                            Some(k) => Some((Operator::Lt, k)),
                            None => None,
                        },
                    },
                },
            },
        },
    }
}

/// An operator with white space around it.
pub open spec fn w_ws_op(s: Seq<char>, i: int) -> Option<(Operator, int)> {
    match w_op(s, skip_ws(s, i)) {
        Some((o, j)) => Some((o, skip_ws(s, j))),
        None => None,
    }
}

/// `operand operator operand`.
pub open spec fn w_compare(s: Seq<char>, i: int) -> Option<(WCondV, int)> {
    match w_ws_expr(s, i) {
        None => None,
        Some((l, j)) => match w_ws_op(s, j) {
            None => None,
            Some((op, k)) => match w_ws_expr(s, k) {
                None => None,
                Some((r, m)) => Some((WCondV::Compare { left: l, op: op, right: r }, m)),
            },
        },
    }
}

/// `NOT factor`, `(condition)` or a comparison.
pub open spec fn w_factor(s: Seq<char>, i: int) -> Option<(WCondV, int)>
    decreases s.len() - i, 0int,
{
    if !(0 <= i <= s.len()) {
        None
    } else {
        let not_form: Option<(WCondV, int)> = match sp_ws_kw(s, i, seq!['N', 'O', 'T'], seq!['n', 'o', 't']) {
            Some(j) => {
                proof { lemma_ws_kw_progress(s, i, seq!['N', 'O', 'T'], seq!['n', 'o', 't']); }
                match w_factor(s, j) {
                    Some((c, k)) => Some((WCondV::Not(Box::new(c)), k)),
                    None => None,
                }
            },
            None => None,
        };
        match not_form {
            Some(r) => Some(r),
            None => {
                let paren: Option<(WCondV, int)> = match sp_ws_char(s, i, '(') {
                    Some(j) => {
                        proof { lemma_ws_char_progress(s, i, '('); }
                        match w_or(s, j) {
                            Some((c, k)) => match sp_ws_char(s, k, ')') {
                                Some(m) => Some((c, m)),
                                None => None,
                            },
                            None => None,
                        }
                    },
                    None => None,
                };
                match paren {
                    Some(r) => Some(r),
                    None => w_compare(s, i),
                }
            },
        }
    }
}

/// Factors joined by `AND`, grouped from the left.
pub open spec fn w_and(s: Seq<char>, i: int) -> Option<(WCondV, int)>
    decreases s.len() - i, 1int,
{
    match w_factor(s, i) {
        None => None,
        Some((c, j)) => if i < j <= s.len() { w_and_rest(s, j, c) } else { None },
    }
}

/// Further `AND` operands after `acc`; an `AND` not followed by a factor ends the list before it.
pub open spec fn w_and_rest(s: Seq<char>, j: int, acc: WCondV) -> Option<(WCondV, int)>
    decreases s.len() - j, 2int,
{
    if !(0 <= j <= s.len()) {
        None
    } else {
        match sp_ws_kw(s, j, seq!['A', 'N', 'D'], seq!['a', 'n', 'd']) {
            None => Some((acc, j)),
            Some(k) => {
                proof { lemma_ws_kw_progress(s, j, seq!['A', 'N', 'D'], seq!['a', 'n', 'd']); }
                match w_factor(s, k) {
                    None => Some((acc, j)),
                    Some((r, m)) => if j < m <= s.len() {
                        w_and_rest(s, m, WCondV::And(Box::new(acc), Box::new(r)))
                    } else {
                        None
                    },
                }
            },
        }
    }
}

/// Conjunctions joined by `OR`, grouped from the left.
pub open spec fn w_or(s: Seq<char>, i: int) -> Option<(WCondV, int)>
    decreases s.len() - i, 3int,
{
    match w_and(s, i) {
        None => None,
        Some((c, j)) => if i < j <= s.len() { w_or_rest(s, j, c) } else { None },
    }
}

/// Further `OR` operands after `acc`; an `OR` not followed by a conjunction ends the list
/// before it.
pub open spec fn w_or_rest(s: Seq<char>, j: int, acc: WCondV) -> Option<(WCondV, int)>
    decreases s.len() - j, 4int,
{
    if !(0 <= j <= s.len()) {
        None
    } else {
        match sp_ws_kw(s, j, seq!['O', 'R'], seq!['o', 'r']) {
            None => Some((acc, j)),
            Some(k) => {
                proof { lemma_ws_kw_progress(s, j, seq!['O', 'R'], seq!['o', 'r']); }
                match w_and(s, k) {
                    None => Some((acc, j)),
                    Some((r, m)) => if j < m <= s.len() {
                        w_or_rest(s, m, WCondV::Or(Box::new(acc), Box::new(r)))
                    } else {
                        None
                    },
                }
            },
        }
    }
}

/// `WHERE condition` at the start of the text.
pub open spec fn w_where(s: Seq<char>) -> Option<(WCondV, int)> {
    match sp_ws_kw(s, 0, seq!['W', 'H', 'E', 'R', 'E'], seq!['w', 'h', 'e', 'r', 'e']) {
        None => None,
        Some(j) => w_or(s, j),
    }
}

// ---------------------------------------------------------------------------------------------
// The parser.

fn expr_exec(cs: &Vec<char>, i: usize) -> (r: Option<(Expr, usize)>)
    requires
        i <= cs@.len(),
    ensures
        match r {
            Some((e, k)) => w_expr(cs@, i as int) == Some((e@, k as int)) && i < k <= cs@.len(),
            None => w_expr(cs@, i as int) is None,
        },
{
    match identifier_exec(cs, i) {
        Some((v, j)) => match char_exec(cs, j, '.') {
            Some(k) => match identifier_exec(cs, k) {
                Some((p, m)) => {
                    return Some((Expr::VariableProperty(v, p), m));
                },
                None => {},
            },
            None => {},
        },
        None => {},
    }
    match string_literal_exec(cs, i) {
        Some((t, k)) => Some((Expr::Literal(t), k)),
        None => match identifier_exec(cs, i) {
            Some((v, j)) => Some((Expr::Literal(v), j)),
            None => None,
        },
    }
}

fn ws_expr_exec(cs: &Vec<char>, i: usize) -> (r: Option<(Expr, usize)>)
    requires
        i <= cs@.len(),
    ensures
        match r {
            Some((e, k)) => w_ws_expr(cs@, i as int) == Some((e@, k as int)) && i < k <= cs@.len(),
            None => w_ws_expr(cs@, i as int) is None,
        },
{
    let j = skip_ws_exec(cs, i);
    match expr_exec(cs, j) {
        Some((e, k)) => {
            let m = skip_ws_exec(cs, k);
            Some((e, m))
        },
        None => None,
    }
}

fn ws_op_exec(cs: &Vec<char>, i: usize) -> (r: Option<(Operator, usize)>)
    requires
        i <= cs@.len(),
    ensures
        match r {
            Some((o, k)) => w_ws_op(cs@, i as int) == Some((o, k as int)) && i < k <= cs@.len(),
            None => w_ws_op(cs@, i as int) is None,
        },
{
    proof { reveal_strlit("<>"); reveal_strlit(">="); reveal_strlit("<="); }
    assert("<>"@ =~= seq!['<', '>']);
    assert(">="@ =~= seq!['>', '=']);
    assert("<="@ =~= seq!['<', '=']);
    let j = skip_ws_exec(cs, i);
    let m: Option<(Operator, usize)> = match char_exec(cs, j, '=') {
        Some(k) => Some((Operator::Eq, k)),
        None => match tag_exec(cs, j, "<>") {
            Some(k) => Some((Operator::Neq, k)),
            None => match tag_exec(cs, j, ">=") {
                Some(k) => Some((Operator::Gte, k)),
                None => match tag_exec(cs, j, "<=") {
                    Some(k) => Some((Operator::Lte, k)),
                    None => match char_exec(cs, j, '>') {
                        Some(k) => Some((Operator::Gt, k)),
                        None => match char_exec(cs, j, '<') {
                            Some(k) => Some((Operator::Lt, k)),
                            None => None,
                        },
                    },
                },
            },
        },
    };
    match m {
        Some((o, k)) => {
            proof { lemma_skip_ws(cs@, k as int); }
            Some((o, skip_ws_exec(cs, k)))
        },
        None => None,
    }
}

fn compare_exec(cs: &Vec<char>, i: usize) -> (r: Option<(Condition, usize)>)
    requires
        i <= cs@.len(),
    ensures
        match r {
            Some((c, k)) => w_compare(cs@, i as int) == Some((c@, k as int)) && i < k <= cs@.len(),
            None => w_compare(cs@, i as int) is None,
        },
{
    match ws_expr_exec(cs, i) {
        None => None,
        Some((l, j)) => match ws_op_exec(cs, j) {
            None => None,
            Some((op, k)) => match ws_expr_exec(cs, k) {
                None => None,
                Some((r, m)) => Some((Condition::Compare { left: l, op: op, right: r }, m)),
            },
        },
    }
}

fn factor_exec(cs: &Vec<char>, i: usize) -> (r: Option<(Condition, usize)>)
    requires
        i <= cs@.len(),
    ensures
        match r {
            Some((c, k)) => w_factor(cs@, i as int) == Some((c@, k as int)) && i < k <= cs@.len(),
            None => w_factor(cs@, i as int) is None,
        },
    decreases cs@.len() - i, 0int,
{
    proof { reveal_strlit("NOT"); reveal_strlit("not"); }
    assert("NOT"@ =~= seq!['N', 'O', 'T']);
    assert("not"@ =~= seq!['n', 'o', 't']);
    match ws_kw_exec(cs, i, "NOT", "not") {
        Some(j) => match factor_exec(cs, j) {
            Some((c, k)) => {
                return Some((Condition::Not(Box::new(c)), k));
            },
            None => {},
        },
        None => {},
    }
    match ws_char_exec(cs, i, '(') {
        Some(j) => match or_exec(cs, j) {
            Some((c, k)) => match ws_char_exec(cs, k, ')') {
                Some(m) => {
                    return Some((c, m));
                },
                None => {},
            },
            None => {},
        },
        None => {},
    }
    compare_exec(cs, i)
}

fn and_exec(cs: &Vec<char>, i: usize) -> (r: Option<(Condition, usize)>)
    requires
        i <= cs@.len(),
    ensures
        match r {
            Some((c, k)) => w_and(cs@, i as int) == Some((c@, k as int)) && i < k <= cs@.len(),
            None => w_and(cs@, i as int) is None,
        },
    decreases cs@.len() - i, 1int,
{
    match factor_exec(cs, i) {
        None => None,
        Some((c, j)) => and_rest_exec(cs, j, c),
    }
}

fn and_rest_exec(cs: &Vec<char>, j: usize, acc: Condition) -> (r: Option<(Condition, usize)>)
    requires
        j <= cs@.len(),
    ensures
        match r {
            Some((c, k)) => w_and_rest(cs@, j as int, acc@) == Some((c@, k as int)) && j <= k <= cs@.len(),
            None => w_and_rest(cs@, j as int, acc@) is None,
        },
    decreases cs@.len() - j, 2int,
{
    proof { reveal_strlit("AND"); reveal_strlit("and"); }
    assert("AND"@ =~= seq!['A', 'N', 'D']);
    assert("and"@ =~= seq!['a', 'n', 'd']);
    match ws_kw_exec(cs, j, "AND", "and") {
        None => Some((acc, j)),
        Some(k) => match factor_exec(cs, k) {
            None => Some((acc, j)),
            Some((r, m)) => {
                let c = Condition::And(Box::new(acc), Box::new(r));
                and_rest_exec(cs, m, c)
            },
        },
    }
}

fn or_exec(cs: &Vec<char>, i: usize) -> (r: Option<(Condition, usize)>)
    requires
        i <= cs@.len(),
    ensures
        match r {
            Some((c, k)) => w_or(cs@, i as int) == Some((c@, k as int)) && i < k <= cs@.len(),
            None => w_or(cs@, i as int) is None,
        },
    decreases cs@.len() - i, 3int,
{
    match and_exec(cs, i) {
        None => None,
        Some((c, j)) => or_rest_exec(cs, j, c),
    }
}

fn or_rest_exec(cs: &Vec<char>, j: usize, acc: Condition) -> (r: Option<(Condition, usize)>)
    requires
        j <= cs@.len(),
    ensures
        match r {
            Some((c, k)) => w_or_rest(cs@, j as int, acc@) == Some((c@, k as int)) && j <= k <= cs@.len(),
            None => w_or_rest(cs@, j as int, acc@) is None,
        },
    decreases cs@.len() - j, 4int,
{
    proof { reveal_strlit("OR"); reveal_strlit("or"); }
    assert("OR"@ =~= seq!['O', 'R']);
    assert("or"@ =~= seq!['o', 'r']);
    match ws_kw_exec(cs, j, "OR", "or") {
        None => Some((acc, j)),
        Some(k) => match and_exec(cs, k) {
            None => Some((acc, j)),
            Some((r, m)) => {
                let c = Condition::Or(Box::new(acc), Box::new(r));
                or_rest_exec(cs, m, c)
            },
        },
    }
}

/// Parses `WHERE condition` (the keyword in upper or lower case) at the start of the text: the
/// text left after the condition and the condition, or `None` when no such clause starts there.
pub fn parse_where_clause(input: &str) -> (r: Option<(String, Condition)>)
    ensures
        match r {
            Some((rest, c)) => w_where(input@) matches Some((cv, k)) && cv == c@ && 0 < k <= input@.len()
                && rest@ == input@.subrange(k, input@.len() as int),
            None => w_where(input@) is None,
        },
{
    proof { reveal_strlit("WHERE"); reveal_strlit("where"); }
    assert("WHERE"@ =~= seq!['W', 'H', 'E', 'R', 'E']);
    assert("where"@ =~= seq!['w', 'h', 'e', 'r', 'e']);
    let cs = crate::text::chars_of(input);
    match ws_kw_exec(&cs, 0, "WHERE", "where") {
        None => None,
        Some(j) => match or_exec(&cs, j) {
            Some((c, k)) => {
                let rest = crate::text::string_from_chars(&cs, k, cs.len());
                Some((rest, c))
            },
            None => None,
        },
    }
}

} // verus!
