use vstd::prelude::*;
use crate::parser::lexical::{char_is_alphanumeric, is_alphanumeric, is_space, is_alpha, is_digit, is_ident_char, skip_ws, sp_char, sp_tag, sp_ws_char, sp_ws_tag, sp_ws_kw, ident_end, sp_identifier, sp_ws_identifier, find_char, sp_string_literal, digit_end, sp_digits, char_digits, strip_leading, strip_trailing, make_num, sp_number_literal, sp_boolean_literal, skip_ws_exec, char_exec, tag_exec, ws_char_exec, ws_tag_exec, ws_kw_exec, identifier_exec, ws_identifier_exec, string_literal_exec, digits_exec, digit_run, lemma_digit_end, lemma_ident_end, lemma_skip_ws, make_number, number_literal_exec, boolean_literal_exec};
use crate::parser::{
    cond_view, exprs_view, lemma_exprs_view_cons, CompareOp, CondV, Condition, ExprV, Expression,
    opt_str_view, paths_view, steps_view, NodePattern, NodePatternV, Path, PathV, RelPattern, RelPatternV,
};
use crate::property::{PropV, PropertyMap, PropertyValue};

verus! {

// ---------------------------------------------------------------------------------------------
// List combinators (specification).

/// After a first element: further elements, each preceded by the separator `c`.
pub open spec fn sep_rest<T>(s: Seq<char>, j: int, c: char, p: spec_fn(Seq<char>, int) -> Option<(T, int)>) -> (Seq<T>, int)
    decreases s.len() - j,
{
    match sp_ws_char(s, j, c) {
        None => (Seq::empty(), j),
        Some(k) => match p(s, k) {
            None => (Seq::empty(), j),
            Some((v, m)) => if j < m <= s.len() {
                (seq![v] + sep_rest(s, m, c, p).0, sep_rest(s, m, c, p).1)
            } else {
                (Seq::empty(), j)
            },
        },
    }
}

/// One or more elements separated by `c`.
pub open spec fn sep1<T>(s: Seq<char>, i: int, c: char, p: spec_fn(Seq<char>, int) -> Option<(T, int)>) -> Option<(Seq<T>, int)> {
    match p(s, i) {
        None => None,
        Some((v, m)) => Some((seq![v] + sep_rest(s, m, c, p).0, sep_rest(s, m, c, p).1)),
    }
}

/// Zero or more elements separated by `c`.
pub open spec fn sep0<T>(s: Seq<char>, i: int, c: char, p: spec_fn(Seq<char>, int) -> Option<(T, int)>) -> (Seq<T>, int) {
    match sep1(s, i, c, p) {
        None => (Seq::empty(), i),
        Some(r) => r,
    }
}

/// Zero or more elements, one after the other.
pub open spec fn many<T>(s: Seq<char>, i: int, p: spec_fn(Seq<char>, int) -> Option<(T, int)>) -> (Seq<T>, int)
    decreases s.len() - i,
{
    match p(s, i) {
        None => (Seq::empty(), i),
        Some((v, m)) => if i < m <= s.len() {
            (seq![v] + many(s, m, p).0, many(s, m, p).1)
        } else {
            (Seq::empty(), i)
        },
    }
}

// ---------------------------------------------------------------------------------------------
// Properties.

/// A property value: a string literal, a number or a boolean.
pub open spec fn sp_property_value(s: Seq<char>, i: int) -> Option<(PropV, int)> {
    match sp_string_literal(s, i) {
        Some((t, j)) => Some((PropV::Text(t), j)),
        None => match sp_number_literal(s, i) {
            Some((n, j)) => Some((PropV::Number(n), j)),
            None => match sp_boolean_literal(s, i) {
                Some((b, j)) => Some((PropV::Boolean(b), j)),
                None => None,
            },
        },
    }
}

/// A property value or a bare identifier (taken as a string), with white space around it.
pub open spec fn sp_value_or_ident(s: Seq<char>, i: int) -> Option<(PropV, int)> {
    let j = skip_ws(s, i);
    match sp_property_value(s, j) {
        Some((v, k)) => Some((v, skip_ws(s, k))),
        None => match sp_identifier(s, j) {
            Some((id, k)) => Some((PropV::Text(id), skip_ws(s, k))),
            None => None,
        },
    }
}

/// `key: value`.
pub open spec fn sp_property(s: Seq<char>, i: int) -> Option<((Seq<char>, PropV), int)> {
    match sp_ws_identifier(s, i) {
        None => None,
        Some((k, j)) => match sp_ws_char(s, j, ':') {
            None => None,
            Some(l) => match sp_value_or_ident(s, l) {
                None => None,
                Some((v, m)) => Some(((k, v), m)),
            },
        },
    }
}

pub open spec fn property_parser() -> spec_fn(Seq<char>, int) -> Option<((Seq<char>, PropV), int)> {
    |s: Seq<char>, i: int| sp_property(s, i)
}

/// `{key: value, ...}` with white space around the braces.
pub open spec fn sp_properties(s: Seq<char>, i: int) -> Option<(Seq<(Seq<char>, PropV)>, int)> {
    match sp_ws_char(s, i, '{') {
        None => None,
        Some(j) => match sep1(s, j, ',', property_parser()) {
            None => None,
            Some((ps, k)) => match sp_ws_char(s, k, '}') {
                None => None,
                Some(m) => Some((ps, m)),
            },
        },
    }
}

/// `sp_properties` with white space around it.
pub open spec fn sp_ws_properties(s: Seq<char>, i: int) -> Option<(Seq<(Seq<char>, PropV)>, int)> {
    match sp_properties(s, skip_ws(s, i)) {
        Some((ps, k)) => Some((ps, skip_ws(s, k))),
        None => None,
    }
}

/// The map the listed properties give, a later key overriding an earlier one.
pub open spec fn props_map(ps: Seq<(Seq<char>, PropV)>) -> Map<Seq<char>, PropV>
    decreases ps.len(),
{
    if ps.len() == 0 {
        Map::empty()
    } else {
        props_map(ps.subrange(0, ps.len() - 1)).insert(ps[ps.len() - 1].0, ps[ps.len() - 1].1)
    }
}

/// An optional `:Label` with white space around it.
pub open spec fn sp_opt_label(s: Seq<char>, i: int) -> (Option<Seq<char>>, int) {
    match sp_ws_char(s, i, ':') {
        Some(j) => match sp_ws_identifier(s, j) {
            Some((l, k)) => (Some(l), k),
            None => (None, i),
        },
        None => (None, i),
    }
}

/// An optional identifier with white space around it.
pub open spec fn sp_opt_ident(s: Seq<char>, i: int) -> (Option<Seq<char>>, int) {
    match sp_ws_identifier(s, i) {
        Some((v, j)) => (Some(v), j),
        None => (None, i),
    }
}

/// Optional properties.
pub open spec fn sp_opt_props(s: Seq<char>, i: int) -> (Map<Seq<char>, PropV>, int) {
    match sp_ws_properties(s, i) {
        Some((ps, j)) => (props_map(ps), j),
        None => (Map::empty(), i),
    }
}

/// `(variable:Label {properties})`.
pub open spec fn sp_node_pattern(s: Seq<char>, i: int) -> Option<(NodePatternV, int)> {
    match sp_ws_char(s, i, '(') {
        None => None,
        Some(a) => {
            let (var, b) = sp_opt_ident(s, a);
            let (label, c) = sp_opt_label(s, b);
            let (props, d) = sp_opt_props(s, c);
            match sp_ws_char(s, d, ')') {
                None => None,
                Some(e) => Some((NodePatternV { variable: var, label: label, properties: props }, e)),
            }
        },
    }
}

/// The value of a run of decimal digit characters.
pub open spec fn digits_value(cs: Seq<char>) -> nat
    decreases cs.len(),
{
    if cs.len() == 0 {
        0
    } else {
        digits_value(cs.subrange(0, cs.len() - 1)) * 10 + (((cs[cs.len() - 1] as u32) - 48) as nat)
    }
}

/// Digits with white space around them, and their value.
pub open spec fn sp_ws_number(s: Seq<char>, i: int) -> Option<(nat, int)> {
    let j = skip_ws(s, i);
    match sp_digits(s, j) {
        Some(k) => Some((digits_value(s.subrange(j, k)), skip_ws(s, k))),
        None => None,
    }
}

/// An optional bound of a variable length.
pub open spec fn sp_opt_bound(s: Seq<char>, i: int) -> (Option<nat>, int) {
    match sp_ws_number(s, i) {
        Some((n, j)) => (Some(n), j),
        None => (None, i),
    }
}

/// A bound that has to fit in `usize`; a larger one makes the length unparsable.
pub open spec fn fits(b: Option<nat>) -> bool {
    match b {
        Some(n) => n <= usize::MAX,
        None => true,
    }
}

pub open spec fn to_usize(b: Option<nat>) -> Option<usize> {
    match b {
        Some(n) => Some(n as usize),
        None => None,
    }
}

/// `*`, `*n`, `*n..`, `*..m` or `*n..m`: the minimum (1 when absent) and the maximum.
pub open spec fn sp_var_length(s: Seq<char>, i: int) -> Option<((usize, Option<usize>), int)> {
    match sp_ws_char(s, i, '*') {
        None => None,
        Some(a) => {
            let (min, b) = sp_opt_bound(s, a);
            let dots = sp_ws_tag(s, b, seq!['.', '.']);
            let c = match dots { Some(c) => c, None => b };
            let (max, d) = if dots is Some { sp_opt_bound(s, c) } else { (None, c) };
            if fits(min) && fits(max) {
                let min_val: usize = match min { Some(n) => n as usize, None => 1 };
                let max_val: Option<usize> = if dots is Some { to_usize(max) } else if min is Some { Some(min_val) } else { None };
                Some(((min_val, max_val), d))
            } else {
                None
            }
        },
    }
}

/// An optional variable length with white space around it.
pub open spec fn sp_opt_length(s: Seq<char>, i: int) -> (Option<(usize, Option<usize>)>, int) {
    match sp_var_length(s, skip_ws(s, i)) {
        Some((l, j)) => (Some(l), skip_ws(s, j)),
        None => (None, i),
    }
}

/// `-[variable:Label {properties} *length]->`.
pub open spec fn sp_rel_pattern(s: Seq<char>, i: int) -> Option<(RelPatternV, int)> {
    match sp_ws_tag(s, i, seq!['-', '[']) {
        None => None,
        Some(a) => {
            let (var, b) = sp_opt_ident(s, a);
            let (label, c) = sp_opt_label(s, b);
            let (props, d) = sp_opt_props(s, c);
            let (len, e) = sp_opt_length(s, d);
            match sp_ws_tag(s, e, seq![']', '-', '>']) {
                None => None,
                Some(f) => Some((RelPatternV { variable: var, label: label, properties: props, length: len }, f)),
            }
        },
    }
}

/// A relationship and the node it leads to.
pub open spec fn sp_step(s: Seq<char>, i: int) -> Option<((RelPatternV, NodePatternV), int)> {
    match sp_rel_pattern(s, skip_ws(s, i)) {
        None => None,
        Some((r, j)) => match sp_node_pattern(s, skip_ws(s, j)) {
            None => None,
            Some((n, k)) => Some(((r, n), skip_ws(s, k))),
        },
    }
}

pub open spec fn step_parser() -> spec_fn(Seq<char>, int) -> Option<((RelPatternV, NodePatternV), int)> {
    |s: Seq<char>, i: int| sp_step(s, i)
}

/// An optional `name =` binding the whole path.
pub open spec fn sp_opt_binding(s: Seq<char>, i: int) -> (Option<Seq<char>>, int) {
    match sp_ws_identifier(s, i) {
        Some((v, j)) => match sp_ws_char(s, j, '=') {
            Some(k) => (Some(v), k),
            None => (None, i),
        },
        None => (None, i),
    }
}

/// A path: an optional binding, a node and any number of steps.
pub open spec fn sp_path(s: Seq<char>, i: int) -> Option<(PathV, int)> {
    let (bound, a) = sp_opt_binding(s, i);
    match sp_node_pattern(s, a) {
        None => None,
        Some((start, b)) => {
            let (steps, c) = many(s, b, step_parser());
            Some((PathV { bound_variable: bound, start: start, edges: steps }, c))
        },
    }
}

pub open spec fn path_parser() -> spec_fn(Seq<char>, int) -> Option<(PathV, int)> {
    |s: Seq<char>, i: int| sp_path(s, i)
}

/// One or more paths separated by commas.
pub open spec fn sp_paths(s: Seq<char>, i: int) -> Option<(Seq<PathV>, int)> {
    sep1(s, i, ',', path_parser())
}

// ---------------------------------------------------------------------------------------------
// Executable parsers for properties and patterns.

pub fn property_value_exec(cs: &Vec<char>, i: usize) -> (r: Option<(PropertyValue, usize)>)
    requires
        i <= cs@.len(),
    ensures
        match r {
            Some((v, k)) => sp_property_value(cs@, i as int) == Some((v@, k as int)) && i < k <= cs@.len() && v.wf(),
            None => sp_property_value(cs@, i as int) is None,
        },
{
    match string_literal_exec(cs, i) {
        Some((t, j)) => Some((PropertyValue::String(t), j)),
        None => match number_literal_exec(cs, i) {
            Some((n, j)) => Some((PropertyValue::Number(n), j)),
            None => match boolean_literal_exec(cs, i) {
                Some((b, j)) => Some((PropertyValue::Boolean(b), j)),
                None => None,
            },
        },
    }
}

pub fn value_or_ident_exec(cs: &Vec<char>, i: usize) -> (r: Option<(PropertyValue, usize)>)
    requires
        i <= cs@.len(),
    ensures
        match r {
            Some((v, k)) => sp_value_or_ident(cs@, i as int) == Some((v@, k as int)) && i < k <= cs@.len() && v.wf(),
            None => sp_value_or_ident(cs@, i as int) is None,
        },
{
    let j = skip_ws_exec(cs, i);
    match property_value_exec(cs, j) {
        Some((v, k)) => Some((v, skip_ws_exec(cs, k))),
        None => match identifier_exec(cs, j) {
            Some((id, k)) => Some((PropertyValue::String(id), skip_ws_exec(cs, k))),
            None => None,
        },
    }
}

pub fn property_exec(cs: &Vec<char>, i: usize) -> (r: Option<((String, PropertyValue), usize)>)
    requires
        i <= cs@.len(),
    ensures
        match r {
            Some((kv, k)) => sp_property(cs@, i as int) == Some(((kv.0@, kv.1@), k as int)) && i < k <= cs@.len() && kv.1.wf(),
            None => sp_property(cs@, i as int) is None,
        },
{
    match ws_identifier_exec(cs, i) {
        None => None,
        Some((k, j)) => match ws_char_exec(cs, j, ':') {
            None => None,
            Some(l) => match value_or_ident_exec(cs, l) {
                None => None,
                Some((v, m)) => Some(((k, v), m)),
            },
        },
    }
}

pub open spec fn pairs_view(ps: Seq<(String, PropertyValue)>) -> Seq<(Seq<char>, PropV)> {
    ps.map_values(|p: (String, PropertyValue)| (p.0@, p.1@))
}

/// Further properties after a first one.
fn property_rest_exec(cs: &Vec<char>, j: usize) -> (r: (Vec<(String, PropertyValue)>, usize))
    requires
        j <= cs@.len(),
    ensures
        (pairs_view(r.0@), r.1 as int) == sep_rest(cs@, j as int, ',', property_parser()),
        j <= r.1 <= cs@.len(),
        forall|x: int| 0 <= x < r.0@.len() ==> (#[trigger] r.0@[x]).1.wf(),
    decreases cs@.len() - j,
{
    match ws_char_exec(cs, j, ',') {
        None => (Vec::new(), j),
        Some(k) => match property_exec(cs, k) {
            None => (Vec::new(), j),
            Some((kv, m)) => {
                let (mut rest, e) = property_rest_exec(cs, m);
                rest.insert(0, kv);
                proof {
                    assert(pairs_view(rest@) =~= seq![(kv.0@, kv.1@)] + sep_rest(cs@, m as int, ',', property_parser()).0);
                    assert forall|x: int| 0 <= x < rest@.len() implies (#[trigger] rest@[x]).1.wf() by {
                        if x > 0 { assert(rest@[x] == old_rest_elem(rest@, x)); }
                    }
                }
                (rest, e)
            },
        },
    }
}

spec fn old_rest_elem(v: Seq<(String, PropertyValue)>, x: int) -> (String, PropertyValue) {
    v[x]
}

/// A property map built from properties listed in order.
pub fn build_property_map(ps: Vec<(String, PropertyValue)>) -> (r: PropertyMap)
    requires
        forall|x: int| 0 <= x < ps@.len() ==> (#[trigger] ps@[x]).1.wf(),
    ensures
        r@ == props_map(pairs_view(ps@)),
        r.wf(),
{
    let mut m = PropertyMap::new();
    let ghost orig = ps@;
    let ghost all = pairs_view(ps@);
    let mut ps = ps;
    assert(props_map(all.subrange(0, 0)) =~= Map::<Seq<char>, PropV>::empty());
    assert(ps@ =~= orig.subrange(0, orig.len() as int));
    while ps.len() > 0
        invariant
            m.wf(),
            all == pairs_view(orig),
            ps@.len() <= orig.len(),
            ps@ == orig.subrange(orig.len() - ps@.len(), orig.len() as int),
            forall|x: int| 0 <= x < orig.len() ==> (#[trigger] orig[x]).1.wf(),
            m@ == props_map(all.subrange(0, orig.len() - ps@.len())),
        decreases ps@.len(),
    {
        let ghost n = orig.len() - ps@.len();
        let (k, v) = ps.remove(0);
        proof {
            assert(orig[n] == (k, v));
            assert(all[n] == (k@, v@));
            assert(all.subrange(0, n + 1).subrange(0, n) =~= all.subrange(0, n));
            assert(ps@ =~= orig.subrange(orig.len() - ps@.len(), orig.len() as int));
        }
        m.insert(k, v);
    }
    assert(all.subrange(0, all.len() as int) =~= all);
    m
}


pub fn properties_exec(cs: &Vec<char>, i: usize) -> (r: Option<(Vec<(String, PropertyValue)>, usize)>)
    requires
        i <= cs@.len(),
    ensures
        match r {
            Some((ps, k)) => sp_properties(cs@, i as int) == Some((pairs_view(ps@), k as int)) && i < k <= cs@.len()
                && forall|x: int| 0 <= x < ps@.len() ==> (#[trigger] ps@[x]).1.wf(),
            None => sp_properties(cs@, i as int) is None,
        },
{
    match ws_char_exec(cs, i, '{') {
        None => None,
        Some(j) => match property_exec(cs, j) {
            None => None,
            Some((kv, m)) => {
                let (mut ps, k) = property_rest_exec(cs, m);
                ps.insert(0, kv);
                proof {
                    assert(pairs_view(ps@) =~= seq![(kv.0@, kv.1@)] + sep_rest(cs@, m as int, ',', property_parser()).0);
                    assert forall|x: int| 0 <= x < ps@.len() implies (#[trigger] ps@[x]).1.wf() by {
                        if x > 0 { assert(ps@[x] == old_rest_elem(ps@, x)); }
                    }
                }
                match ws_char_exec(cs, k, '}') {
                    None => None,
                    Some(e) => Some((ps, e)),
                }
            },
        },
    }
}

fn opt_props_exec(cs: &Vec<char>, i: usize) -> (r: (PropertyMap, usize))
    requires
        i <= cs@.len(),
    ensures
        (r.0@, r.1 as int) == sp_opt_props(cs@, i as int),
        r.0.wf(),
        i <= r.1 <= cs@.len(),
{
    let j = skip_ws_exec(cs, i);
    match properties_exec(cs, j) {
        Some((ps, k)) => {
            let m = build_property_map(ps);
            (m, skip_ws_exec(cs, k))
        },
        None => {
            let m = PropertyMap::new();
            assert(m@ =~= Map::<Seq<char>, PropV>::empty());
            (m, i)
        },
    }
}

fn opt_ident_exec(cs: &Vec<char>, i: usize) -> (r: (Option<String>, usize))
    requires
        i <= cs@.len(),
    ensures
        (opt_str_view(r.0), r.1 as int) == sp_opt_ident(cs@, i as int),
        i <= r.1 <= cs@.len(),
{
    match ws_identifier_exec(cs, i) {
        Some((v, j)) => (Some(v), j),
        None => (None, i),
    }
}

fn opt_label_exec(cs: &Vec<char>, i: usize) -> (r: (Option<String>, usize))
    requires
        i <= cs@.len(),
    ensures
        (opt_str_view(r.0), r.1 as int) == sp_opt_label(cs@, i as int),
        i <= r.1 <= cs@.len(),
{
    match ws_char_exec(cs, i, ':') {
        Some(j) => match ws_identifier_exec(cs, j) {
            Some((l, k)) => (Some(l), k),
            None => (None, i),
        },
        None => (None, i),
    }
}

pub fn node_pattern_exec(cs: &Vec<char>, i: usize) -> (r: Option<(NodePattern, usize)>)
    requires
        i <= cs@.len(),
    ensures
        match r {
            Some((n, k)) => sp_node_pattern(cs@, i as int) == Some((n@, k as int)) && i < k <= cs@.len() && n.properties.wf(),
            None => sp_node_pattern(cs@, i as int) is None,
        },
{
    match ws_char_exec(cs, i, '(') {
        None => None,
        Some(a) => {
            let (var, b) = opt_ident_exec(cs, a);
            let (label, c) = opt_label_exec(cs, b);
            let (props, d) = opt_props_exec(cs, c);
            match ws_char_exec(cs, d, ')') {
                None => None,
                Some(e) => Some((NodePattern { variable: var, label: label, properties: props }, e)),
            }
        },
    }
}

proof fn lemma_digits_value_prefix(cs: Seq<char>, j: int)
    requires
        0 <= j <= cs.len(),
    ensures
        digits_value(cs.subrange(0, j)) <= digits_value(cs),
    decreases cs.len() - j,
{
    if j < cs.len() {
        let t = cs.subrange(0, cs.len() - 1);
        assert(cs.subrange(0, j) =~= t.subrange(0, j));
        lemma_digits_value_prefix(t, j);
        assert(digits_value(t) <= digits_value(cs)) by (nonlinear_arith)
            requires
                digits_value(cs) == digits_value(t) * 10 + (((cs[cs.len() - 1] as u32) - 48) as nat),
        ;
    } else {
        assert(cs.subrange(0, j) =~= cs);
    }
}

/// The value of the digit characters `cs[a..b]`, when it fits in `usize`.
fn digits_to_usize(cs: &Vec<char>, a: usize, b: usize) -> (r: Option<usize>)
    requires
        a <= b <= cs@.len(),
        digit_run(cs@, a as int, b as int),
    ensures
        match r {
            Some(n) => n == digits_value(cs@.subrange(a as int, b as int)),
            None => digits_value(cs@.subrange(a as int, b as int)) > usize::MAX,
        },
{
    let mut v: usize = 0;
    let mut j = a;
    assert(cs@.subrange(a as int, a as int) =~= Seq::<char>::empty());
    while j < b
        invariant
            a <= j <= b,
            b <= cs@.len(),
            digit_run(cs@, a as int, b as int),
            v == digits_value(cs@.subrange(a as int, j as int)),
        decreases b - j,
    {
        let ghost sub = cs@.subrange(a as int, j as int + 1);
        assert(sub.subrange(0, sub.len() - 1) =~= cs@.subrange(a as int, j as int));
        assert(is_digit(cs@[j as int]));
        let d = (cs[j] as u32 - 48) as usize;
        assert(sub[sub.len() - 1] == cs@[j as int]);
        match v.checked_mul(10) {
            None => {
                proof {
                    assert(digits_value(sub) >= v * 10);
                    assert(cs@.subrange(a as int, b as int).subrange(0, j + 1 - a) =~= sub);
                    lemma_digits_value_prefix(cs@.subrange(a as int, b as int), j + 1 - a);
                }
                return None;
            },
            Some(t) => match t.checked_add(d) {
                None => {
                    proof {
                        assert(cs@.subrange(a as int, b as int).subrange(0, j + 1 - a) =~= sub);
                        lemma_digits_value_prefix(cs@.subrange(a as int, b as int), j + 1 - a);
                    }
                    return None;
                },
                Some(w) => {
                    v = w;
                },
            },
        }
        j = j + 1;
    }
    Some(v)
}

pub(crate) fn ws_number_exec(cs: &Vec<char>, i: usize) -> (r: Option<(Option<usize>, usize)>)
    requires
        i <= cs@.len(),
    ensures
        match r {
            Some((n, k)) => sp_ws_number(cs@, i as int) matches Some((m, e)) && e == k as int && i < k <= cs@.len()
                && (n matches Some(x) ==> x == m) && (n is None ==> m > usize::MAX),
            None => sp_ws_number(cs@, i as int) is None,
        },
{
    let j = skip_ws_exec(cs, i);
    match digits_exec(cs, j) {
        Some(k) => {
            proof { lemma_digit_end(cs@, j + 1); }
            let n = digits_to_usize(cs, j, k);
            Some((n, skip_ws_exec(cs, k)))
        },
        None => None,
    }
}

/// `sp_opt_bound`, with `Err` for a bound that does not fit in `usize`.
fn opt_bound_exec(cs: &Vec<char>, i: usize) -> (r: (Result<Option<usize>, ()>, usize))
    requires
        i <= cs@.len(),
    ensures
        r.1 as int == sp_opt_bound(cs@, i as int).1,
        i <= r.1 <= cs@.len(),
        match r.0 {
            Ok(b) => fits(sp_opt_bound(cs@, i as int).0) && b == to_usize(sp_opt_bound(cs@, i as int).0),
            Err(_) => !fits(sp_opt_bound(cs@, i as int).0),
        },
{
    match ws_number_exec(cs, i) {
        Some((Some(n), j)) => (Ok(Some(n)), j),
        Some((None, j)) => (Err(()), j),
        None => (Ok(None), i),
    }
}

fn var_length_exec(cs: &Vec<char>, i: usize) -> (r: Option<((usize, Option<usize>), usize)>)
    requires
        i <= cs@.len(),
    ensures
        match r {
            Some((l, k)) => sp_var_length(cs@, i as int) == Some((l, k as int)) && i < k <= cs@.len(),
            None => sp_var_length(cs@, i as int) is None,
        },
{
    proof { reveal_strlit(".."); }
    assert(".."@ =~= seq!['.', '.']);
    match ws_char_exec(cs, i, '*') {
        None => None,
        Some(a) => {
            let (min, b) = opt_bound_exec(cs, a);
            let dots = ws_tag_exec(cs, b, "..");
            let c = match dots { Some(c) => c, None => b };
            let (max, d) = if dots.is_some() { opt_bound_exec(cs, c) } else { (Ok(None), c) };
            match (min, max) {
                (Ok(mn), Ok(mx)) => {
                    let min_val: usize = match mn { Some(n) => n, None => 1 };
                    let max_val: Option<usize> = if dots.is_some() { mx } else if mn.is_some() { Some(min_val) } else { None };
                    Some(((min_val, max_val), d))
                },
                _ => None,
            }
        },
    }
}

fn opt_length_exec(cs: &Vec<char>, i: usize) -> (r: (Option<(usize, Option<usize>)>, usize))
    requires
        i <= cs@.len(),
    ensures
        r == (sp_opt_length(cs@, i as int).0, r.1) && r.1 as int == sp_opt_length(cs@, i as int).1,
        i <= r.1 <= cs@.len(),
{
    let j = skip_ws_exec(cs, i);
    match var_length_exec(cs, j) {
        Some((l, k)) => (Some(l), skip_ws_exec(cs, k)),
        None => (None, i),
    }
}

pub fn rel_pattern_exec(cs: &Vec<char>, i: usize) -> (r: Option<(RelPattern, usize)>)
    requires
        i <= cs@.len(),
    ensures
        match r {
            Some((p, k)) => sp_rel_pattern(cs@, i as int) == Some((p@, k as int)) && i < k <= cs@.len() && p.properties.wf(),
            None => sp_rel_pattern(cs@, i as int) is None,
        },
{
    proof { reveal_strlit("-["); reveal_strlit("]->"); }
    assert("-["@ =~= seq!['-', '[']);
    assert("]->"@ =~= seq![']', '-', '>']);
    match ws_tag_exec(cs, i, "-[") {
        None => None,
        Some(a) => {
            let (var, b) = opt_ident_exec(cs, a);
            let (label, c) = opt_label_exec(cs, b);
            let (props, d) = opt_props_exec(cs, c);
            let (len, e) = opt_length_exec(cs, d);
            match ws_tag_exec(cs, e, "]->") {
                None => None,
                Some(f) => Some((RelPattern { variable: var, label: label, properties: props, length: len }, f)),
            }
        },
    }
}

fn step_exec(cs: &Vec<char>, i: usize) -> (r: Option<((RelPattern, NodePattern), usize)>)
    requires
        i <= cs@.len(),
    ensures
        match r {
            Some((st, k)) => sp_step(cs@, i as int) == Some(((st.0@, st.1@), k as int)) && i < k <= cs@.len()
                && st.0.properties.wf() && st.1.properties.wf(),
            None => sp_step(cs@, i as int) is None,
        },
{
    let j = skip_ws_exec(cs, i);
    match rel_pattern_exec(cs, j) {
        None => None,
        Some((rp, k)) => {
            let l = skip_ws_exec(cs, k);
            match node_pattern_exec(cs, l) {
                None => None,
                Some((np, m)) => Some(((rp, np), skip_ws_exec(cs, m))),
            }
        },
    }
}

/// Every pattern in the steps has well-formed properties.
pub open spec fn steps_wf(es: Seq<(RelPattern, NodePattern)>) -> bool {
    forall|x: int| 0 <= x < es.len() ==> (#[trigger] es[x]).0.properties.wf() && es[x].1.properties.wf()
}

fn steps_exec(cs: &Vec<char>, i: usize) -> (r: (Vec<(RelPattern, NodePattern)>, usize))
    requires
        i <= cs@.len(),
    ensures
        (steps_view(r.0@), r.1 as int) == many(cs@, i as int, step_parser()),
        i <= r.1 <= cs@.len(),
        steps_wf(r.0@),
    decreases cs@.len() - i,
{
    match step_exec(cs, i) {
        None => (Vec::new(), i),
        Some((st, m)) => {
            let (mut rest, e) = steps_exec(cs, m);
            let ghost rv = rest@;
            rest.insert(0, st);
            proof {
                assert(steps_view(rest@) =~= seq![(st.0@, st.1@)] + steps_view(rv));
                assert forall|x: int| 0 <= x < rest@.len() implies (#[trigger] rest@[x]).0.properties.wf() && rest@[x].1.properties.wf() by {
                    if x > 0 { assert(rest@[x] == rv[x - 1]); }
                }
            }
            (rest, e)
        },
    }
}

fn opt_binding_exec(cs: &Vec<char>, i: usize) -> (r: (Option<String>, usize))
    requires
        i <= cs@.len(),
    ensures
        (opt_str_view(r.0), r.1 as int) == sp_opt_binding(cs@, i as int),
        i <= r.1 <= cs@.len(),
{
    match ws_identifier_exec(cs, i) {
        Some((v, j)) => match ws_char_exec(cs, j, '=') {
            Some(k) => (Some(v), k),
            None => (None, i),
        },
        None => (None, i),
    }
}

/// Every pattern of a path has well-formed properties.
pub open spec fn path_wf(p: Path) -> bool {
    p.start.properties.wf() && steps_wf(p.edges@)
}

pub fn path_exec(cs: &Vec<char>, i: usize) -> (r: Option<(Path, usize)>)
    requires
        i <= cs@.len(),
    ensures
        match r {
            Some((p, k)) => sp_path(cs@, i as int) == Some((p@, k as int)) && i < k <= cs@.len() && path_wf(p),
            None => sp_path(cs@, i as int) is None,
        },
{
    let (bound, a) = opt_binding_exec(cs, i);
    match node_pattern_exec(cs, a) {
        None => None,
        Some((start, b)) => {
            let (steps, c) = steps_exec(cs, b);
            Some((Path { bound_variable: bound, start: start, edges: steps }, c))
        },
    }
}

pub open spec fn paths_wf(ps: Seq<Path>) -> bool {
    forall|x: int| 0 <= x < ps.len() ==> path_wf(#[trigger] ps[x])
}

fn paths_rest_exec(cs: &Vec<char>, j: usize) -> (r: (Vec<Path>, usize))
    requires
        j <= cs@.len(),
    ensures
        (paths_view(r.0@), r.1 as int) == sep_rest(cs@, j as int, ',', path_parser()),
        j <= r.1 <= cs@.len(),
        paths_wf(r.0@),
    decreases cs@.len() - j,
{
    match ws_char_exec(cs, j, ',') {
        None => (Vec::new(), j),
        Some(k) => match path_exec(cs, k) {
            None => (Vec::new(), j),
            Some((p, m)) => {
                let (mut rest, e) = paths_rest_exec(cs, m);
                let ghost rv = rest@;
                rest.insert(0, p);
                proof {
                    assert(paths_view(rest@) =~= seq![p@] + paths_view(rv));
                    assert forall|x: int| 0 <= x < rest@.len() implies path_wf(#[trigger] rest@[x]) by {
                        if x > 0 { assert(rest@[x] == rv[x - 1]); }
                    }
                }
                (rest, e)
            },
        },
    }
}

pub fn paths_exec(cs: &Vec<char>, i: usize) -> (r: Option<(Vec<Path>, usize)>)
    requires
        i <= cs@.len(),
    ensures
        match r {
            Some((ps, k)) => sp_paths(cs@, i as int) == Some((paths_view(ps@), k as int)) && i < k <= cs@.len() && paths_wf(ps@),
            None => sp_paths(cs@, i as int) is None,
        },
{
    match path_exec(cs, i) {
        None => None,
        Some((p, m)) => {
            let (mut rest, e) = paths_rest_exec(cs, m);
            let ghost rv = rest@;
            rest.insert(0, p);
            proof {
                assert(paths_view(rest@) =~= seq![p@] + paths_view(rv));
                assert forall|x: int| 0 <= x < rest@.len() implies path_wf(#[trigger] rest@[x]) by {
                    if x > 0 { assert(rest@[x] == rv[x - 1]); }
                }
            }
            Some((rest, e))
        },
    }
}


// ---------------------------------------------------------------------------------------------
// Expressions and conditions.

pub proof fn lemma_ws_char_progress(s: Seq<char>, i: int, c: char)
    requires
        0 <= i <= s.len(),
        sp_ws_char(s, i, c) is Some,
    ensures
        i < sp_ws_char(s, i, c).unwrap() <= s.len(),
{
    lemma_skip_ws(s, i);
    lemma_skip_ws(s, skip_ws(s, i) + 1);
}

pub proof fn lemma_ws_identifier_progress(s: Seq<char>, i: int)
    requires
        0 <= i <= s.len(),
        sp_ws_identifier(s, i) is Some,
    ensures
        i < sp_ws_identifier(s, i).unwrap().1 <= s.len(),
{
    lemma_skip_ws(s, i);
    let j = skip_ws(s, i);
    lemma_ident_end(s, j + 1);
    lemma_skip_ws(s, ident_end(s, j + 1));
}

pub proof fn lemma_ws_kw_progress(s: Seq<char>, i: int, t1: Seq<char>, t2: Seq<char>)
    requires
        0 <= i <= s.len(),
        t1.len() > 0,
        t2.len() > 0,
        sp_ws_kw(s, i, t1, t2) is Some,
    ensures
        i < sp_ws_kw(s, i, t1, t2).unwrap() <= s.len(),
{
    lemma_skip_ws(s, i);
    let j = skip_ws(s, i);
    if sp_ws_tag(s, i, t1) is Some {
        lemma_skip_ws(s, j + t1.len());
    } else {
        lemma_skip_ws(s, j + t2.len());
    }
}

/// An expression: a literal, `var.prop`, `f(args)` or a variable.
pub open spec fn sp_expression(s: Seq<char>, i: int) -> Option<(ExprV, int)>
    decreases s.len() - i, 0int,
{
    let j = skip_ws(s, i);
    match sp_string_literal(s, j) {
        Some((t, k)) => Some((ExprV::StringLiteral(t), skip_ws(s, k))),
        None => match sp_number_literal(s, j) {
            Some((n, k)) => Some((ExprV::NumberLiteral(n), skip_ws(s, k))),
            None => match sp_boolean_literal(s, j) {
                Some((b, k)) => Some((ExprV::BooleanLiteral(b), skip_ws(s, k))),
                None => match sp_ws_identifier(s, i) {
                    None => None,
                    Some((v, a)) => {
                        let prop: Option<(ExprV, int)> = match sp_char(s, a, '.') {
                            Some(b) => match sp_ws_identifier(s, b) {
                                Some((p, c)) => Some((ExprV::Property(v, p), c)),
                                None => None,
                            },
                            None => None,
                        };
                        match prop {
                            Some(r) => Some(r),
                            None => {
                                let call: Option<(ExprV, int)> = match sp_ws_char(s, a, '(') {
                                    Some(b) => {
                                        if 0 <= i <= s.len() {
                                            proof {
                                                lemma_ws_identifier_progress(s, i);
                                                lemma_ws_char_progress(s, a, '(');
                                            }
                                            match sp_expr_list(s, b) {
                                                Some((args, c)) => match sp_ws_char(s, c, ')') {
                                                    Some(d) => Some((ExprV::Function(v, args), d)),
                                                    None => None,
                                                },
                                                None => None,
                                            }
                                        } else {
                                            None
                                        }
                                    },
                                    None => None,
                                };
                                match call {
                                    Some(r) => Some(r),
                                    None => Some((ExprV::Variable(v), a)),
                                }
                            },
                        }
                    },
                },
            },
        },
    }
}

/// One or more expressions separated by commas.
pub open spec fn sp_expr_list(s: Seq<char>, i: int) -> Option<(Seq<ExprV>, int)>
    decreases s.len() - i, 1int,
{
    match sp_expression(s, i) {
        None => None,
        Some((e, m)) => if i < m <= s.len() {
            Some((seq![e] + sp_expr_rest(s, m).0, sp_expr_rest(s, m).1))
        } else {
            None
        },
    }
}

/// Further expressions after a first one, each preceded by a comma.
pub open spec fn sp_expr_rest(s: Seq<char>, j: int) -> (Seq<ExprV>, int)
    decreases s.len() - j, 2int,
{
    match sp_ws_char(s, j, ',') {
        None => (Seq::empty(), j),
        Some(k) => {
            if 0 <= j <= s.len() {
                proof { lemma_ws_char_progress(s, j, ','); }
                match sp_expression(s, k) {
                    None => (Seq::empty(), j),
                    Some((e, m)) => if j < m <= s.len() {
                        (seq![e] + sp_expr_rest(s, m).0, sp_expr_rest(s, m).1)
                    } else {
                        (Seq::empty(), j)
                    },
                }
            } else {
                (Seq::empty(), j)
            }
        },
    }
}

pub fn expression_exec(cs: &Vec<char>, i: usize) -> (r: Option<(Expression, usize)>)
    requires
        i <= cs@.len(),
    ensures
        match r {
            Some((e, k)) => sp_expression(cs@, i as int) == Some((e@, k as int)) && i < k <= cs@.len() && crate::parser::lit_wf(e@),
            None => sp_expression(cs@, i as int) is None,
        },
    decreases cs@.len() - i, 0int,
{
    let j = skip_ws_exec(cs, i);
    match string_literal_exec(cs, j) {
        Some((t, k)) => return Some((Expression::StringLiteral(t), skip_ws_exec(cs, k))),
        None => {},
    }
    match number_literal_exec(cs, j) {
        Some((n, k)) => return Some((Expression::NumberLiteral(n), skip_ws_exec(cs, k))),
        None => {},
    }
    match boolean_literal_exec(cs, j) {
        Some((b, k)) => return Some((Expression::BooleanLiteral(b), skip_ws_exec(cs, k))),
        None => {},
    }
    match ws_identifier_exec(cs, i) {
        None => None,
        Some((v, a)) => {
            match char_exec(cs, a, '.') {
                Some(b) => match ws_identifier_exec(cs, b) {
                    Some((p, c)) => return Some((Expression::Property(v, p), c)),
                    None => {},
                },
                None => {},
            }
            match ws_char_exec(cs, a, '(') {
                Some(b) => {
                    match expr_list_exec(cs, b) {
                        Some((args, c)) => match ws_char_exec(cs, c, ')') {
                            Some(d) => {
                                return Some((Expression::Function(v, args), d));
                            },
                            None => {},
                        },
                        None => {},
                    }
                },
                None => {},
            }
            Some((Expression::Variable(v), a))
        },
    }
}

pub fn expr_list_exec(cs: &Vec<char>, i: usize) -> (r: Option<(Vec<Expression>, usize)>)
    requires
        i <= cs@.len(),
    ensures
        match r {
            Some((es, k)) => sp_expr_list(cs@, i as int) == Some((exprs_view(es@), k as int)) && i < k <= cs@.len(),
            None => sp_expr_list(cs@, i as int) is None,
        },
    decreases cs@.len() - i, 1int,
{
    match expression_exec(cs, i) {
        None => None,
        Some((e, m)) => {
            let (mut rest, f) = expr_rest_exec(cs, m);
            let ghost rv = rest@;
            proof { lemma_exprs_view_cons(e, rv); }
            rest.insert(0, e);
            assert(rest@ =~= seq![e] + rv);
            Some((rest, f))
        },
    }
}

fn expr_rest_exec(cs: &Vec<char>, j: usize) -> (r: (Vec<Expression>, usize))
    requires
        j <= cs@.len(),
    ensures
        (exprs_view(r.0@), r.1 as int) == sp_expr_rest(cs@, j as int),
        j <= r.1 <= cs@.len(),
    decreases cs@.len() - j, 2int,
{
    match ws_char_exec(cs, j, ',') {
        None => {
            assert(exprs_view(Seq::<Expression>::empty()) == Seq::<ExprV>::empty());
            (Vec::new(), j)
        },
        Some(k) => match expression_exec(cs, k) {
            None => {
                assert(exprs_view(Seq::<Expression>::empty()) == Seq::<ExprV>::empty());
                (Vec::new(), j)
            },
            Some((e, m)) => {
                let (mut rest, f) = expr_rest_exec(cs, m);
                let ghost rv = rest@;
                proof { lemma_exprs_view_cons(e, rv); }
                rest.insert(0, e);
                assert(rest@ =~= seq![e] + rv);
                (rest, f)
            },
        },
    }
}


/// A comparison operator, with white space around it.
pub open spec fn sp_compare_op(s: Seq<char>, i: int) -> Option<(CompareOp, int)> {
    let j = skip_ws(s, i);
    let m: Option<(CompareOp, int)> = match sp_tag(s, j, seq!['>', '=']) {
        Some(k) => Some((CompareOp::Gte, k)),
        None => match sp_tag(s, j, seq!['<', '=']) {
            Some(k) => Some((CompareOp::Lte, k)),
            None => match sp_tag(s, j, seq!['!', '=']) {
                Some(k) => Some((CompareOp::Neq, k)),
                None => match sp_char(s, j, '>') {
                    Some(k) => Some((CompareOp::Gt, k)),
                    None => match sp_char(s, j, '<') {
                        Some(k) => Some((CompareOp::Lt, k)),
                        None => match sp_char(s, j, '=') {
                            Some(k) => Some((CompareOp::Eq, k)),
                            None => None,
                        },
                    },
                },
            },
        },
    };
    match m {
        Some((op, k)) => Some((op, skip_ws(s, k))),
        None => None,
    }
}

/// `NOT base`, `(condition)` or `expression op expression`.
pub open spec fn sp_cond_base(s: Seq<char>, i: int) -> Option<(CondV, int)>
    decreases s.len() - i, 0int,
{
    if !(0 <= i <= s.len()) {
        None
    } else {
        let not_form: Option<(CondV, int)> = match sp_ws_kw(s, i, seq!['N', 'O', 'T'], seq!['n', 'o', 't']) {
            Some(j) => {
                proof {
                    lemma_ws_kw_progress(s, i, seq!['N', 'O', 'T'], seq!['n', 'o', 't']);
                    lemma_skip_ws(s, j);
                }
                match sp_cond_base(s, skip_ws(s, j)) {
                    Some((c, k)) => Some((CondV::Not(Box::new(c)), skip_ws(s, k))),
                    None => None,
                }
            },
            None => None,
        };
        match not_form {
            Some(r) => Some(r),
            None => {
                let paren: Option<(CondV, int)> = match sp_ws_char(s, i, '(') {
                    Some(j) => {
                        proof {
                            lemma_ws_char_progress(s, i, '(');
                            lemma_skip_ws(s, j);
                        }
                        match sp_cond_or(s, skip_ws(s, j)) {
                            Some((c, k)) => match sp_ws_char(s, skip_ws(s, k), ')') {
                                Some(m) => Some((c, m)),
                                None => None,
                            },
                            None => None,
                        }
                    },
                    None => None,
                };
                match paren {
                    Some(r) => Some(r),
                    None => match sp_expression(s, i) {
                        None => None,
                        Some((l, j)) => match sp_compare_op(s, j) {
                            None => None,
                            Some((op, k)) => match sp_expression(s, k) {
                                None => None,
                                Some((r, m)) => Some((CondV::Compare { left: l, op: op, right: r }, m)),
                            },
                        },
                    },
                }
            },
        }
    }
}

/// Conditions joined by `AND`, grouped from the left.
pub open spec fn sp_cond_and(s: Seq<char>, i: int) -> Option<(CondV, int)>
    decreases s.len() - i, 1int,
{
    match sp_cond_base(s, i) {
        None => None,
        Some((c, j)) => if i < j <= s.len() { sp_and_rest(s, j, c) } else { None },
    }
}

/// Further `AND` operands after `acc`.
pub open spec fn sp_and_rest(s: Seq<char>, j: int, acc: CondV) -> Option<(CondV, int)>
    decreases s.len() - j, 2int,
{
    if !(0 <= j <= s.len()) {
        None
    } else {
        match sp_ws_kw(s, j, seq!['A', 'N', 'D'], seq!['a', 'n', 'd']) {
            None => Some((acc, j)),
            Some(k) => {
                proof { lemma_ws_kw_progress(s, j, seq!['A', 'N', 'D'], seq!['a', 'n', 'd']); }
                match sp_cond_base(s, k) {
                    None => None,
                    Some((r, m)) => if j < m <= s.len() {
                        sp_and_rest(s, m, CondV::And(Box::new(acc), Box::new(r)))
                    } else {
                        None
                    },
                }
            },
        }
    }
}

/// Conditions joined by `OR`, grouped from the left; `AND` binds tighter.
pub open spec fn sp_cond_or(s: Seq<char>, i: int) -> Option<(CondV, int)>
    decreases s.len() - i, 3int,
{
    match sp_cond_and(s, i) {
        None => None,
        Some((c, j)) => if i < j <= s.len() { sp_or_rest(s, j, c) } else { None },
    }
}

/// Further `OR` operands after `acc`.
pub open spec fn sp_or_rest(s: Seq<char>, j: int, acc: CondV) -> Option<(CondV, int)>
    decreases s.len() - j, 4int,
{
    if !(0 <= j <= s.len()) {
        None
    } else {
        match sp_ws_kw(s, j, seq!['O', 'R'], seq!['o', 'r']) {
            None => Some((acc, j)),
            Some(k) => {
                proof { lemma_ws_kw_progress(s, j, seq!['O', 'R'], seq!['o', 'r']); }
                match sp_cond_and(s, k) {
                    None => None,
                    Some((r, m)) => if j < m <= s.len() {
                        sp_or_rest(s, m, CondV::Or(Box::new(acc), Box::new(r)))
                    } else {
                        None
                    },
                }
            },
        }
    }
}

/// `WHERE condition`.
pub open spec fn sp_where(s: Seq<char>, i: int) -> Option<(CondV, int)> {
    match sp_ws_kw(s, i, seq!['W', 'H', 'E', 'R', 'E'], seq!['w', 'h', 'e', 'r', 'e']) {
        None => None,
        Some(j) => sp_cond_or(s, j),
    }
}

fn compare_op_exec(cs: &Vec<char>, i: usize) -> (r: Option<(CompareOp, usize)>)
    requires
        i <= cs@.len(),
    ensures
        match r {
            Some((op, k)) => sp_compare_op(cs@, i as int) == Some((op, k as int)) && i < k <= cs@.len(),
            None => sp_compare_op(cs@, i as int) is None,
        },
{
    proof { reveal_strlit(">="); reveal_strlit("<="); reveal_strlit("!="); }
    assert(">="@ =~= seq!['>', '=']);
    assert("<="@ =~= seq!['<', '=']);
    assert("!="@ =~= seq!['!', '=']);
    let j = skip_ws_exec(cs, i);
    let m: Option<(CompareOp, usize)> = match tag_exec(cs, j, ">=") {
        Some(k) => Some((CompareOp::Gte, k)),
        None => match tag_exec(cs, j, "<=") {
            Some(k) => Some((CompareOp::Lte, k)),
            None => match tag_exec(cs, j, "!=") {
                Some(k) => Some((CompareOp::Neq, k)),
                None => match char_exec(cs, j, '>') {
                    Some(k) => Some((CompareOp::Gt, k)),
                    None => match char_exec(cs, j, '<') {
                        Some(k) => Some((CompareOp::Lt, k)),
                        None => match char_exec(cs, j, '=') {
                            Some(k) => Some((CompareOp::Eq, k)),
                            None => None,
                        },
                    },
                },
            },
        },
    };
    match m {
        Some((op, k)) => Some((op, skip_ws_exec(cs, k))),
        None => None,
    }
}

pub fn cond_base_exec(cs: &Vec<char>, i: usize) -> (r: Option<(Condition, usize)>)
    requires
        i <= cs@.len(),
    ensures
        match r {
            Some((c, k)) => sp_cond_base(cs@, i as int) == Some((c@, k as int)) && i < k <= cs@.len() && crate::parser::condv_wf(c@),
            None => sp_cond_base(cs@, i as int) is None,
        },
    decreases cs@.len() - i, 0int,
{
    proof { reveal_strlit("NOT"); reveal_strlit("not"); }
    assert("NOT"@ =~= seq!['N', 'O', 'T']);
    assert("not"@ =~= seq!['n', 'o', 't']);
    match ws_kw_exec(cs, i, "NOT", "not") {
        Some(j) => {
            let j2 = skip_ws_exec(cs, j);
            match cond_base_exec(cs, j2) {
                Some((c, k)) => {
                    let k2 = skip_ws_exec(cs, k);
                    return Some((Condition::Not(Box::new(c)), k2));
                },
                None => {},
            }
        },
        None => {},
    }
    match ws_char_exec(cs, i, '(') {
        Some(j) => {
            let j2 = skip_ws_exec(cs, j);
            match cond_or_exec(cs, j2) {
                Some((c, k)) => {
                    let k2 = skip_ws_exec(cs, k);
                    match ws_char_exec(cs, k2, ')') {
                        Some(m) => return Some((c, m)),
                        None => {},
                    }
                },
                None => {},
            }
        },
        None => {},
    }
    match expression_exec(cs, i) {
        None => None,
        Some((l, j)) => match compare_op_exec(cs, j) {
            None => None,
            Some((op, k)) => match expression_exec(cs, k) {
                None => None,
                Some((r, m)) => Some((Condition::Compare { left: l, op: op, right: r }, m)),
            },
        },
    }
}

pub fn cond_and_exec(cs: &Vec<char>, i: usize) -> (r: Option<(Condition, usize)>)
    requires
        i <= cs@.len(),
    ensures
        match r {
            Some((c, k)) => sp_cond_and(cs@, i as int) == Some((c@, k as int)) && i < k <= cs@.len() && crate::parser::condv_wf(c@),
            None => sp_cond_and(cs@, i as int) is None,
        },
    decreases cs@.len() - i, 1int,
{
    match cond_base_exec(cs, i) {
        None => None,
        Some((c, j)) => and_rest_exec(cs, j, c),
    }
}

fn and_rest_exec(cs: &Vec<char>, j: usize, acc: Condition) -> (r: Option<(Condition, usize)>)
    requires
        j <= cs@.len(),
        crate::parser::condv_wf(acc@),
    ensures
        match r {
            Some((c, k)) => sp_and_rest(cs@, j as int, acc@) == Some((c@, k as int)) && j <= k <= cs@.len() && crate::parser::condv_wf(c@),
            None => sp_and_rest(cs@, j as int, acc@) is None,
        },
    decreases cs@.len() - j, 2int,
{
    proof { reveal_strlit("AND"); reveal_strlit("and"); }
    assert("AND"@ =~= seq!['A', 'N', 'D']);
    assert("and"@ =~= seq!['a', 'n', 'd']);
    match ws_kw_exec(cs, j, "AND", "and") {
        None => Some((acc, j)),
        Some(k) => match cond_base_exec(cs, k) {
            None => None,
            Some((r, m)) => {
                let c = Condition::And(Box::new(acc), Box::new(r));
                assert(c@ == CondV::And(Box::new(acc@), Box::new(r@)));
                and_rest_exec(cs, m, c)
            },
        },
    }
}

pub fn cond_or_exec(cs: &Vec<char>, i: usize) -> (r: Option<(Condition, usize)>)
    requires
        i <= cs@.len(),
    ensures
        match r {
            Some((c, k)) => sp_cond_or(cs@, i as int) == Some((c@, k as int)) && i < k <= cs@.len() && crate::parser::condv_wf(c@),
            None => sp_cond_or(cs@, i as int) is None,
        },
    decreases cs@.len() - i, 3int,
{
    match cond_and_exec(cs, i) {
        None => None,
        Some((c, j)) => or_rest_exec(cs, j, c),
    }
}

fn or_rest_exec(cs: &Vec<char>, j: usize, acc: Condition) -> (r: Option<(Condition, usize)>)
    requires
        j <= cs@.len(),
        crate::parser::condv_wf(acc@),
    ensures
        match r {
            Some((c, k)) => sp_or_rest(cs@, j as int, acc@) == Some((c@, k as int)) && j <= k <= cs@.len() && crate::parser::condv_wf(c@),
            None => sp_or_rest(cs@, j as int, acc@) is None,
        },
    decreases cs@.len() - j, 4int,
{
    proof { reveal_strlit("OR"); reveal_strlit("or"); }
    assert("OR"@ =~= seq!['O', 'R']);
    assert("or"@ =~= seq!['o', 'r']);
    match ws_kw_exec(cs, j, "OR", "or") {
        None => Some((acc, j)),
        Some(k) => match cond_and_exec(cs, k) {
            None => None,
            Some((r, m)) => {
                let c = Condition::Or(Box::new(acc), Box::new(r));
                assert(c@ == CondV::Or(Box::new(acc@), Box::new(r@)));
                or_rest_exec(cs, m, c)
            },
        },
    }
}

pub fn where_exec(cs: &Vec<char>, i: usize) -> (r: Option<(Condition, usize)>)
    requires
        i <= cs@.len(),
    ensures
        match r {
            Some((c, k)) => sp_where(cs@, i as int) == Some((c@, k as int)) && i < k <= cs@.len() && crate::parser::condv_wf(c@),
            None => sp_where(cs@, i as int) is None,
        },
{
    proof { reveal_strlit("WHERE"); reveal_strlit("where"); }
    assert("WHERE"@ =~= seq!['W', 'H', 'E', 'R', 'E']);
    assert("where"@ =~= seq!['w', 'h', 'e', 'r', 'e']);
    match ws_kw_exec(cs, i, "WHERE", "where") {
        None => None,
        Some(j) => match cond_or_exec(cs, j) {
            Some((c, k)) => Some((c, k)),
            None => None,
        },
    }
}

} // verus!
