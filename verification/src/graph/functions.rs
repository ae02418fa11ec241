use vstd::prelude::*;
use crate::graph::element::{elems_view, lemma_elems_view, ElemV, GraphElement};
use crate::graph::eval::{ascii_lower, eq_ignore_case, zero_num};
use crate::property::{num_of_nat, NumV, Number};
use crate::text::{chars_of, string_from_chars};

verus! {

// ---------------------------------------------------------------------------------------------
// Case mapping of texts.

/// What `str::to_lowercase` gives for a text.
pub uninterp spec fn text_lower(s: Seq<char>) -> Seq<char>;

/// What `str::to_uppercase` gives for a text.
pub uninterp spec fn text_upper(s: Seq<char>) -> Seq<char>;

/// The text in lower case. Trusted: the body calls std's `str::to_lowercase`, whose answer (by
/// the Unicode case tables) depends on the text alone; the contract names it (`text_lower`).
#[verifier::external_body]
fn lower_text(s: &str) -> (r: String)
    ensures
        r@ == text_lower(s@),
{
    s.to_lowercase()
}

/// The text in upper case. Trusted: the body calls std's `str::to_uppercase`, whose answer (by
/// the Unicode case tables) depends on the text alone; the contract names it (`text_upper`).
#[verifier::external_body]
fn upper_text(s: &str) -> (r: String)
    ensures
        r@ == text_upper(s@),
{
    s.to_uppercase()
}

// ---------------------------------------------------------------------------------------------
// Numbers.

/// The value of decimal digits, most significant first.
pub open spec fn digits_value(ds: Seq<u8>) -> nat
    decreases ds.len(),
{
    if ds.len() == 0 { 0 } else { digits_value(ds.drop_last()) * 10 + ds.last() as nat }
}

/// A number as an index: 0 when negative, else its integer part, capped at the largest `usize`
/// (as a cast of a number to `usize` does).
pub open spec fn num_to_usize(n: NumV) -> usize {
    if n.negative {
        0
    } else if digits_value(n.int_digits) >= usize::MAX {
        usize::MAX
    } else {
        digits_value(n.int_digits) as usize
    }
}

/// How many nines end the digits.
pub open spec fn trailing_nines(ds: Seq<u8>) -> nat
    decreases ds.len(),
{
    if ds.len() == 0 || ds.last() != 9 { 0 } else { trailing_nines(ds.drop_last()) + 1 }
}

/// `n` zeros.
pub open spec fn zeros(n: nat) -> Seq<u8> {
    Seq::new(n, |i: int| 0u8)
}

/// The digits of one more than the value of `ds` (the empty digits standing for zero).
pub open spec fn digits_succ(ds: Seq<u8>) -> Seq<u8> {
    let t = trailing_nines(ds);
    let n = ds.len();
    if t == n {
        seq![1u8] + zeros(n)
    } else {
        ds.take(n - t - 1).push(if ds[n - t - 1] == 255 { 0u8 } else { (ds[n - t - 1] + 1) as u8 }) + zeros(t)
    }
}

/// The absolute value.
pub open spec fn num_abs(n: NumV) -> NumV {
    NumV { negative: false, ..n }
}

/// The whole number of magnitude `mag`, negative when `negative` and not zero.
pub open spec fn whole(negative: bool, mag: Seq<u8>) -> NumV {
    NumV { negative: negative && mag.len() > 0, int_digits: mag, frac_digits: Seq::empty() }
}

/// The largest whole number not above `n`.
pub open spec fn num_floor(n: NumV) -> NumV {
    if n.frac_digits.len() == 0 {
        n
    } else if n.negative {
        whole(true, digits_succ(n.int_digits))
    } else {
        whole(false, n.int_digits)
    }
}

/// The smallest whole number not below `n`.
pub open spec fn num_ceil(n: NumV) -> NumV {
    if n.frac_digits.len() == 0 {
        n
    } else if n.negative {
        whole(true, n.int_digits)
    } else {
        whole(false, digits_succ(n.int_digits))
    }
}

/// The nearest whole number, halves away from zero.
pub open spec fn num_round(n: NumV) -> NumV {
    if n.frac_digits.len() == 0 {
        n
    } else if n.frac_digits[0] >= 5 {
        whole(n.negative, digits_succ(n.int_digits))
    } else {
        whole(n.negative, n.int_digits)
    }
}

// ---------------------------------------------------------------------------------------------
// The functions a query can call.

/// The characters of `s` from `start`, at most `len` of them; nothing when `start` is past the
/// end.
pub open spec fn substring_spec(s: Seq<char>, start: usize, len: usize) -> Seq<char> {
    if start <= s.len() {
        if len >= s.len() - start { s.subrange(start as int, s.len() as int) } else { s.subrange(start as int, start + len) }
    } else {
        Seq::empty()
    }
}

/// What calling function `f` (its name in any case) on the arguments gives, if anything:
/// `rand` gives 0; `toLower` and `toUpper` a text in lower or upper case; `substring` the part
/// of a text from a start and of a length (both numbers, read as indices); `abs`, `round`,
/// `ceil` and `floor` of a number; `id` the id of a node or an edge. Any other function, a wrong
/// number of arguments, or arguments of other kinds give nothing.
pub open spec fn call_spec(f: Seq<char>, args: Seq<ElemV>) -> Option<ElemV> {
    if eq_ignore_case(f, "rand"@) {
        Some(ElemV::Number(zero_num()))
    } else if eq_ignore_case(f, "tolower"@) {
        if args.len() == 1 && args[0] is Text { Some(ElemV::Text(text_lower(args[0]->Text_0))) } else { None }
    } else if eq_ignore_case(f, "toupper"@) {
        if args.len() == 1 && args[0] is Text { Some(ElemV::Text(text_upper(args[0]->Text_0))) } else { None }
    } else if eq_ignore_case(f, "substring"@) {
        if args.len() == 3 && args[0] is Text && args[1] is Number && args[2] is Number {
            Some(ElemV::Text(substring_spec(args[0]->Text_0, num_to_usize(args[1]->Number_0), num_to_usize(args[2]->Number_0))))
        } else {
            None
        }
    } else if eq_ignore_case(f, "abs"@) {
        if args.len() == 1 && args[0] is Number { Some(ElemV::Number(num_abs(args[0]->Number_0))) } else { None }
    } else if eq_ignore_case(f, "round"@) {
        if args.len() == 1 && args[0] is Number { Some(ElemV::Number(num_round(args[0]->Number_0))) } else { None }
    } else if eq_ignore_case(f, "ceil"@) {
        if args.len() == 1 && args[0] is Number { Some(ElemV::Number(num_ceil(args[0]->Number_0))) } else { None }
    } else if eq_ignore_case(f, "floor"@) {
        if args.len() == 1 && args[0] is Number { Some(ElemV::Number(num_floor(args[0]->Number_0))) } else { None }
    } else if eq_ignore_case(f, "id"@) {
        if args.len() == 1 && args[0] is Node {
            Some(ElemV::Number(num_of_nat(args[0]->Node_0 as nat)))
        } else if args.len() == 1 && args[0] is Edge {
            Some(ElemV::Number(num_of_nat(args[0]->Edge_0 as nat)))
        } else {
            None
        }
    } else {
        None
    }
}


/// A call gives a number or a text, never `Null`.
pub proof fn lemma_call_not_null(f: Seq<char>, args: Seq<ElemV>)
    ensures
        call_spec(f, args) matches Some(x) ==> (x is Number || x is Text),
{
}

// ---------------------------------------------------------------------------------------------
// Running them.

/// The character in lower case, for ASCII letters.
fn ascii_lower_exec(c: char) -> (r: char)
    ensures
        r == ascii_lower(c),
{
    if 'A' <= c && c <= 'Z' {
        let b = (c as u8) + 32;
        b as char
    } else {
        c
    }
}

/// The texts are equal ignoring the case of ASCII letters.
pub fn same_name(f: &str, want: &str) -> (r: bool)
    ensures
        r == eq_ignore_case(f@, want@),
{
    let a = chars_of(f);
    let b = chars_of(want);
    if a.len() != b.len() {
        return false;
    }
    let mut i: usize = 0;
    while i < a.len()
        invariant
            a@ == f@,
            b@ == want@,
            a@.len() == b@.len(),
            i <= a@.len(),
            forall|j: int| 0 <= j < i ==> ascii_lower(#[trigger] a@[j]) == ascii_lower(b@[j]),
        decreases a@.len() - i,
    {
        if ascii_lower_exec(a[i]) != ascii_lower_exec(b[i]) {
            return false;
        }
        i = i + 1;
    }
    true
}

/// A number as an index (see `num_to_usize`).
pub fn number_to_usize(n: &Number) -> (r: usize)
    ensures
        r == num_to_usize(n@),
{
    if n.negative {
        return 0;
    }
    let ds = &n.int_digits;
    let mut acc: usize = 0;
    let mut i: usize = 0;
    while i < ds.len()
        invariant
            i <= ds@.len(),
            ds@ == n@.int_digits,
            acc as int == if digits_value(ds@.take(i as int)) >= usize::MAX { usize::MAX as int } else { digits_value(ds@.take(i as int)) as int },
        decreases ds@.len() - i,
    {
        let d = ds[i];
        assert(ds@.take(i + 1).drop_last() =~= ds@.take(i as int));
        if acc == usize::MAX {
            assert(digits_value(ds@.take(i + 1)) >= usize::MAX) by (nonlinear_arith)
                requires
                    digits_value(ds@.take(i as int)) >= usize::MAX,
                    digits_value(ds@.take(i + 1)) == digits_value(ds@.take(i as int)) * 10 + d,
            ;
        } else {
            let t: u128 = (acc as u128) * 10 + (d as u128);
            if t >= usize::MAX as u128 {
                acc = usize::MAX;
            } else {
                acc = t as usize;
            }
        }
        i = i + 1;
    }
    assert(ds@.take(ds@.len() as int) =~= ds@);
    acc
}

/// `n` zero digits.
fn zero_digits(n: usize) -> (r: Vec<u8>)
    ensures
        r@ == zeros(n as nat),
{
    let mut r: Vec<u8> = Vec::new();
    let mut i: usize = 0;
    while i < n
        invariant
            i <= n,
            r@ == zeros(i as nat),
        decreases n - i,
    {
        r.push(0);
        i = i + 1;
        assert(r@ =~= zeros(i as nat));
    }
    r
}

/// The nines that end a prefix of the digits: counting back from `k`, as `trailing_nines` does.
proof fn lemma_trailing_nines_take(ds: Seq<u8>, k: int)
    requires
        0 <= k <= ds.len(),
    ensures
        trailing_nines(ds.take(k)) <= k,
        trailing_nines(ds.take(k)) < k ==> ds[k - 1 - trailing_nines(ds.take(k))] != 9,
        forall|j: int| k - trailing_nines(ds.take(k)) <= j < k ==> ds[j] == 9,
    decreases k,
{
    if k > 0 {
        assert(ds.take(k).drop_last() =~= ds.take(k - 1));
        lemma_trailing_nines_take(ds, k - 1);
    }
}

/// The digits of one more than the value of `ds` (see `digits_succ`).
fn succ_digits(ds: &Vec<u8>) -> (r: Vec<u8>)
    ensures
        r@ == digits_succ(ds@),
{
    let n = ds.len();
    let mut t: usize = 0;
    while t < n && ds[n - 1 - t] == 9
        invariant
            n == ds@.len(),
            t <= n,
            forall|j: int| n - t <= j < n ==> ds@[j] == 9,
        decreases n - t,
    {
        t = t + 1;
    }
    proof {
        assert(ds@.take(n as int) =~= ds@);
        lemma_trailing_nines_take(ds@, n as int);
        let tn = trailing_nines(ds@);
        if tn < t {
            assert(ds@[n - 1 - tn] == 9);
        }
        if t < tn {
            assert(ds@[n - 1 - t] == 9);
        }
        assert(tn == t);
    }
    if t == n {
        let mut r: Vec<u8> = vec![1u8];
        let z = zero_digits(n);
        let mut j: usize = 0;
        while j < n
            invariant
                z@ == zeros(n as nat),
                j <= n,
                r@ == seq![1u8] + z@.take(j as int),
            decreases n - j,
        {
            r.push(z[j]);
            j = j + 1;
            assert(r@ =~= seq![1u8] + z@.take(j as int));
        }
        assert(z@.take(n as int) =~= z@);
        r
    } else {
        let k = n - t - 1;
        let mut r: Vec<u8> = Vec::new();
        let mut j: usize = 0;
        while j < k
            invariant
                k < n,
                n == ds@.len(),
                j <= k,
                r@ == ds@.take(j as int),
            decreases k - j,
        {
            r.push(ds[j]);
            j = j + 1;
            assert(r@ =~= ds@.take(j as int));
        }
        assert(ds@[k as int] != 9);
        let d = ds[k];
        r.push(if d == 255 { 0 } else { d + 1 });
        let ghost front = r@;
        let mut j: usize = 0;
        while j < t
            invariant
                j <= t,
                r@ == front + zeros(j as nat),
            decreases t - j,
        {
            r.push(0);
            j = j + 1;
            assert(r@ =~= front + zeros(j as nat));
        }
        r
    }
}

/// A copy of digits.
fn copy_digits(ds: &Vec<u8>) -> (r: Vec<u8>)
    ensures
        r@ == ds@,
{
    ds.clone()
}

/// The whole number of magnitude `mag` (see `whole`).
fn whole_exec(negative: bool, mag: Vec<u8>) -> (r: Number)
    ensures
        r@ == whole(negative, mag@),
{
    Number { negative: negative && mag.len() > 0, int_digits: mag, frac_digits: Vec::new() }
}

/// A copy of a number.
fn copy_number(n: &Number) -> (r: Number)
    ensures
        r@ == n@,
{
    Number { negative: n.negative, int_digits: copy_digits(&n.int_digits), frac_digits: copy_digits(&n.frac_digits) }
}

/// The characters of `s` from `start`, at most `len` of them (see `substring_spec`).
fn substring_exec(s: &str, start: usize, len: usize) -> (r: String)
    ensures
        r@ == substring_spec(s@, start, len),
{
    let cs = chars_of(s);
    let n = cs.len();
    if start <= n {
        if len >= n - start {
            string_from_chars(&cs, start, n)
        } else {
            string_from_chars(&cs, start, start + len)
        }
    } else {
        String::new()
    }
}

/// Calls function `f` on the arguments (see `call_spec`).
pub fn call_function(f: &str, args: &Vec<GraphElement>) -> (r: Option<GraphElement>)
    ensures
        match r {
            Some(e) => call_spec(f@, elems_view(args@)) == Some(e@),
            None => call_spec(f@, elems_view(args@)) is None,
        },
{
    proof { lemma_elems_view(args@); }
    let ghost av = elems_view(args@);
    if same_name(f, "rand") {
        let z = Number { negative: false, int_digits: Vec::new(), frac_digits: Vec::new() };
        assert(z@ =~= zero_num());
        return Some(GraphElement::Number(z));
    }
    if same_name(f, "tolower") {
        if args.len() == 1 {
            if let GraphElement::String(s) = &args[0] {
                return Some(GraphElement::String(lower_text(s.as_str())));
            }
        }
        return None;
    }
    if same_name(f, "toupper") {
        if args.len() == 1 {
            if let GraphElement::String(s) = &args[0] {
                return Some(GraphElement::String(upper_text(s.as_str())));
            }
        }
        return None;
    }
    if same_name(f, "substring") {
        if args.len() == 3 {
            if let (GraphElement::String(s), GraphElement::Number(a), GraphElement::Number(b)) = (&args[0], &args[1], &args[2]) {
                let st = number_to_usize(a);
                let ln = number_to_usize(b);
                return Some(GraphElement::String(substring_exec(s.as_str(), st, ln)));
            }
        }
        return None;
    }
    if same_name(f, "abs") || same_name(f, "round") || same_name(f, "ceil") || same_name(f, "floor") {
        if args.len() == 1 {
            if let GraphElement::Number(n) = &args[0] {
                if same_name(f, "abs") {
                    let m = Number { negative: false, int_digits: copy_digits(&n.int_digits), frac_digits: copy_digits(&n.frac_digits) };
                    return Some(GraphElement::Number(m));
                }
                if n.frac_digits.len() == 0 {
                    return Some(GraphElement::Number(copy_number(n)));
                }
                if same_name(f, "round") {
                    let mag = if n.frac_digits[0] >= 5 { succ_digits(&n.int_digits) } else { copy_digits(&n.int_digits) };
                    return Some(GraphElement::Number(whole_exec(n.negative, mag)));
                }
                if same_name(f, "ceil") {
                    let mag = if n.negative { copy_digits(&n.int_digits) } else { succ_digits(&n.int_digits) };
                    return Some(GraphElement::Number(whole_exec(n.negative, mag)));
                }
                let mag = if n.negative { succ_digits(&n.int_digits) } else { copy_digits(&n.int_digits) };
                return Some(GraphElement::Number(whole_exec(n.negative, mag)));
            }
        }
        return None;
    }
    if same_name(f, "id") {
        if args.len() == 1 {
            match &args[0] {
                GraphElement::Node(i) => {
                    return Some(GraphElement::Number(Number::from_usize(*i)));
                },
                GraphElement::Edge(i) => {
                    return Some(GraphElement::Number(Number::from_usize(*i)));
                },
                _ => {},
            }
        }
        return None;
    }
    None
}

} // verus!
