use vstd::prelude::*;
use crate::property::{all_digits, num_wf, NumV, Number};
use crate::text::string_from_chars;

verus! {

/// What `char::is_alphanumeric` answers for `c` (Unicode letters and numbers).
pub uninterp spec fn char_is_alphanumeric(c: char) -> bool;

/// Whether `c` is alphanumeric in Unicode's sense. Trusted: the body calls std's
/// `char::is_alphanumeric`; the contract names its answer (`char_is_alphanumeric`), a function
/// of the character alone, and states the ASCII part that std documents: ASCII letters and
/// digits are alphanumeric, other ASCII characters are not. Outside ASCII the Unicode tables
/// decide, and nothing more is said.
#[verifier::external_body]
pub(crate) fn is_alphanumeric(c: char) -> (r: bool)
    ensures
        r == char_is_alphanumeric(c),
        (c as u32) < 128 ==> (r <==> (is_alpha(c) || is_digit(c))),
{
    c.is_alphanumeric()
}

pub open spec fn is_space(c: char) -> bool {
    c == ' ' || c == '\t' || c == '\r' || c == '\n'
}

pub open spec fn is_alpha(c: char) -> bool {
    ('a' <= c && c <= 'z') || ('A' <= c && c <= 'Z')
}

pub open spec fn is_digit(c: char) -> bool {
    '0' <= c && c <= '9'
}

pub open spec fn is_ident_char(c: char) -> bool {
    is_alpha(c) || is_digit(c) || c == '_'
}

/// The first position at or after `i` that does not hold white space.
pub open spec fn skip_ws(s: Seq<char>, i: int) -> int
    decreases s.len() - i,
{
    if 0 <= i < s.len() && is_space(s[i]) {
        skip_ws(s, i + 1)
    } else {
        i
    }
}

/// `c` at `i`.
pub open spec fn sp_char(s: Seq<char>, i: int, c: char) -> Option<int> {
    if 0 <= i < s.len() && s[i] == c {
        Some(i + 1)
    } else {
        None
    }
}

/// The text `t` at `i`.
pub open spec fn sp_tag(s: Seq<char>, i: int, t: Seq<char>) -> Option<int> {
    if 0 <= i && i + t.len() <= s.len() && s.subrange(i, i + t.len()) == t {
        Some(i + t.len())
    } else {
        None
    }
}

/// `c` with white space around it.
pub open spec fn sp_ws_char(s: Seq<char>, i: int, c: char) -> Option<int> {
    match sp_char(s, skip_ws(s, i), c) {
        Some(k) => Some(skip_ws(s, k)),
        None => None,
    }
}

/// The text `t` with white space around it.
pub open spec fn sp_ws_tag(s: Seq<char>, i: int, t: Seq<char>) -> Option<int> {
    match sp_tag(s, skip_ws(s, i), t) {
        Some(k) => Some(skip_ws(s, k)),
        None => None,
    }
}

/// One of two spellings of a keyword, with white space around it.
pub open spec fn sp_ws_kw(s: Seq<char>, i: int, t1: Seq<char>, t2: Seq<char>) -> Option<int> {
    match sp_ws_tag(s, i, t1) {
        Some(k) => Some(k),
        None => sp_ws_tag(s, i, t2),
    }
}

/// The end of a run of identifier characters starting at `j`.
pub open spec fn ident_end(s: Seq<char>, j: int) -> int
    decreases s.len() - j,
{
    if 0 <= j < s.len() && is_ident_char(s[j]) {
        ident_end(s, j + 1)
    } else {
        j
    }
}

/// An identifier: an ASCII letter, then ASCII letters, digits and underscores.
pub open spec fn sp_identifier(s: Seq<char>, i: int) -> Option<(Seq<char>, int)> {
    if 0 <= i < s.len() && is_alpha(s[i]) {
        Some((s.subrange(i, ident_end(s, i + 1)), ident_end(s, i + 1)))
    } else {
        None
    }
}

/// An identifier with white space around it.
pub open spec fn sp_ws_identifier(s: Seq<char>, i: int) -> Option<(Seq<char>, int)> {
    match sp_identifier(s, skip_ws(s, i)) {
        Some((id, j)) => Some((id, skip_ws(s, j))),
        None => None,
    }
}

/// The first position at or after `j` that holds `q` (or the end).
pub open spec fn find_char(s: Seq<char>, j: int, q: char) -> int
    decreases s.len() - j,
{
    if 0 <= j < s.len() && s[j] != q {
        find_char(s, j + 1, q)
    } else {
        j
    }
}

/// A string literal in single or double quotes, without escapes.
pub open spec fn sp_string_literal(s: Seq<char>, i: int) -> Option<(Seq<char>, int)> {
    if 0 <= i < s.len() && (s[i] == '\'' || s[i] == '"') {
        let k = find_char(s, i + 1, s[i]);
        if k < s.len() {
            Some((s.subrange(i + 1, k), k + 1))
        } else {
            None
        }
    } else {
        None
    }
}

/// The end of a run of digits starting at `j`.
pub open spec fn digit_end(s: Seq<char>, j: int) -> int
    decreases s.len() - j,
{
    if 0 <= j < s.len() && is_digit(s[j]) {
        digit_end(s, j + 1)
    } else {
        j
    }
}

/// One or more ASCII digits.
pub open spec fn sp_digits(s: Seq<char>, i: int) -> Option<int> {
    if 0 <= i < s.len() && is_digit(s[i]) {
        Some(digit_end(s, i + 1))
    } else {
        None
    }
}

/// The values of digit characters.
pub open spec fn char_digits(cs: Seq<char>) -> Seq<u8> {
    cs.map_values(|c: char| ((c as u32) - 48) as u8)
}

/// `ds` without its leading zeros.
pub open spec fn strip_leading(ds: Seq<u8>) -> Seq<u8>
    decreases ds.len(),
{
    if ds.len() > 0 && ds[0] == 0 {
        strip_leading(ds.subrange(1, ds.len() as int))
    } else {
        ds
    }
}

/// `ds` without its trailing zeros.
pub open spec fn strip_trailing(ds: Seq<u8>) -> Seq<u8>
    decreases ds.len(),
{
    if ds.len() > 0 && ds[ds.len() - 1] == 0 {
        strip_trailing(ds.subrange(0, ds.len() - 1))
    } else {
        ds
    }
}

/// The number written with sign `neg`, integer digits `ints` and fraction digits `fracs`.
pub open spec fn make_num(neg: bool, ints: Seq<char>, fracs: Seq<char>) -> NumV {
    let id = strip_leading(char_digits(ints));
    let fd = strip_trailing(char_digits(fracs));
    NumV { negative: neg && !(id.len() == 0 && fd.len() == 0), int_digits: id, frac_digits: fd }
}

/// A number literal: an optional minus sign, digits, and optionally a point and digits.
pub open spec fn sp_number_literal(s: Seq<char>, i: int) -> Option<(NumV, int)> {
    let neg = 0 <= i < s.len() && s[i] == '-';
    let a = if neg { i + 1 } else { i };
    match sp_digits(s, a) {
        None => None,
        Some(b) => {
            if 0 <= b < s.len() && s[b] == '.' && sp_digits(s, b + 1) is Some {
                let e = digit_end(s, b + 2);
                Some((make_num(neg, s.subrange(a, b), s.subrange(b + 1, e)), e))
            } else {
                Some((make_num(neg, s.subrange(a, b), Seq::empty()), b))
            }
        },
    }
}

/// `true`, `TRUE`, `false` or `FALSE`, not followed by a letter, digit or underscore.
pub open spec fn sp_boolean_literal(s: Seq<char>, i: int) -> Option<(bool, int)> {
    let m: Option<(bool, int)> = match sp_tag(s, i, seq!['t', 'r', 'u', 'e']) {
        Some(j) => Some((true, j)),
        None => match sp_tag(s, i, seq!['T', 'R', 'U', 'E']) {
            Some(j) => Some((true, j)),
            None => match sp_tag(s, i, seq!['f', 'a', 'l', 's', 'e']) {
                Some(j) => Some((false, j)),
                None => match sp_tag(s, i, seq!['F', 'A', 'L', 'S', 'E']) {
                    Some(j) => Some((false, j)),
                    None => None,
                },
            },
        },
    };
    match m {
        Some((b, j)) => if 0 <= j < s.len() && (char_is_alphanumeric(s[j]) || s[j] == '_') {
            None
        } else {
            Some((b, j))
        },
        None => None,
    }
}

// ---------------------------------------------------------------------------------------------
// Executable scanners.

pub fn skip_ws_exec(cs: &Vec<char>, i: usize) -> (r: usize)
    requires
        i <= cs@.len(),
    ensures
        r as int == skip_ws(cs@, i as int),
        i <= r <= cs@.len(),
{
    let mut j = i;
    while j < cs.len() && (cs[j] == ' ' || cs[j] == '\t' || cs[j] == '\r' || cs[j] == '\n')
        invariant
            i <= j <= cs@.len(),
            skip_ws(cs@, j as int) == skip_ws(cs@, i as int),
        decreases cs@.len() - j,
    {
        j = j + 1;
    }
    j
}

pub fn char_exec(cs: &Vec<char>, i: usize, c: char) -> (r: Option<usize>)
    requires
        i <= cs@.len(),
    ensures
        match r {
            Some(k) => sp_char(cs@, i as int, c) == Some(k as int) && k <= cs@.len(),
            None => sp_char(cs@, i as int, c) is None,
        },
{
    if i < cs.len() && cs[i] == c {
        Some(i + 1)
    } else {
        None
    }
}

pub fn tag_exec(cs: &Vec<char>, i: usize, t: &str) -> (r: Option<usize>)
    requires
        i <= cs@.len(),
    ensures
        match r {
            Some(k) => sp_tag(cs@, i as int, t@) == Some(k as int) && k <= cs@.len(),
            None => sp_tag(cs@, i as int, t@) is None,
        },
{
    let tc = crate::text::chars_of(t);
    let n = tc.len();
    if n > cs.len() - i {
        return None;
    }
    let mut k: usize = 0;
    let len = cs.len();
    while k < n
        invariant
            len == cs@.len(),
            n == t@.len(),
            tc@ == t@,
            i + n <= cs@.len(),
            k <= n,
            forall|j: int| 0 <= j < k ==> cs@[i + j] == t@[j],
        decreases n - k,
    {
        assert(i + k < cs@.len());
        if cs[i + k] != tc[k] {
            assert(cs@.subrange(i as int, i + n)[k as int] != t@[k as int]);
            return None;
        }
        k = k + 1;
    }
    assert(cs@.subrange(i as int, i + n) =~= t@);
    Some(i + n)
}

pub fn ws_char_exec(cs: &Vec<char>, i: usize, c: char) -> (r: Option<usize>)
    requires
        i <= cs@.len(),
    ensures
        match r {
            Some(k) => sp_ws_char(cs@, i as int, c) == Some(k as int) && i < k <= cs@.len(),
            None => sp_ws_char(cs@, i as int, c) is None,
        },
{
    let j = skip_ws_exec(cs, i);
    match char_exec(cs, j, c) {
        Some(k) => Some(skip_ws_exec(cs, k)),
        None => None,
    }
}

pub fn ws_tag_exec(cs: &Vec<char>, i: usize, t: &str) -> (r: Option<usize>)
    requires
        i <= cs@.len(),
        t@.len() > 0,
    ensures
        match r {
            Some(k) => sp_ws_tag(cs@, i as int, t@) == Some(k as int) && i < k <= cs@.len(),
            None => sp_ws_tag(cs@, i as int, t@) is None,
        },
{
    let j = skip_ws_exec(cs, i);
    match tag_exec(cs, j, t) {
        Some(k) => Some(skip_ws_exec(cs, k)),
        None => None,
    }
}

pub fn ws_kw_exec(cs: &Vec<char>, i: usize, t1: &str, t2: &str) -> (r: Option<usize>)
    requires
        i <= cs@.len(),
        t1@.len() > 0,
        t2@.len() > 0,
    ensures
        match r {
            Some(k) => sp_ws_kw(cs@, i as int, t1@, t2@) == Some(k as int) && i < k <= cs@.len(),
            None => sp_ws_kw(cs@, i as int, t1@, t2@) is None,
        },
{
    match ws_tag_exec(cs, i, t1) {
        Some(k) => Some(k),
        None => ws_tag_exec(cs, i, t2),
    }
}

fn is_alpha_exec(c: char) -> (r: bool)
    ensures
        r == is_alpha(c),
{
    ('a' <= c && c <= 'z') || ('A' <= c && c <= 'Z')
}

fn is_digit_exec(c: char) -> (r: bool)
    ensures
        r == is_digit(c),
{
    '0' <= c && c <= '9'
}

pub fn identifier_exec(cs: &Vec<char>, i: usize) -> (r: Option<(String, usize)>)
    requires
        i <= cs@.len(),
    ensures
        match r {
            Some((id, k)) => sp_identifier(cs@, i as int) == Some((id@, k as int)) && i < k <= cs@.len(),
            None => sp_identifier(cs@, i as int) is None,
        },
{
    if i < cs.len() && is_alpha_exec(cs[i]) {
        let mut j = i + 1;
        while j < cs.len() && (is_alpha_exec(cs[j]) || is_digit_exec(cs[j]) || cs[j] == '_')
            invariant
                i < j <= cs@.len(),
                ident_end(cs@, j as int) == ident_end(cs@, i + 1),
            decreases cs@.len() - j,
        {
            j = j + 1;
        }
        Some((string_from_chars(cs, i, j), j))
    } else {
        None
    }
}

pub fn ws_identifier_exec(cs: &Vec<char>, i: usize) -> (r: Option<(String, usize)>)
    requires
        i <= cs@.len(),
    ensures
        match r {
            Some((id, k)) => sp_ws_identifier(cs@, i as int) == Some((id@, k as int)) && i < k <= cs@.len(),
            None => sp_ws_identifier(cs@, i as int) is None,
        },
{
    let j = skip_ws_exec(cs, i);
    match identifier_exec(cs, j) {
        Some((id, k)) => Some((id, skip_ws_exec(cs, k))),
        None => None,
    }
}

pub fn string_literal_exec(cs: &Vec<char>, i: usize) -> (r: Option<(String, usize)>)
    requires
        i <= cs@.len(),
    ensures
        match r {
            Some((t, k)) => sp_string_literal(cs@, i as int) == Some((t@, k as int)) && i < k <= cs@.len(),
            None => sp_string_literal(cs@, i as int) is None,
        },
{
    if i < cs.len() && (cs[i] == '\'' || cs[i] == '"') {
        let q = cs[i];
        let mut k = i + 1;
        while k < cs.len() && cs[k] != q
            invariant
                i < k <= cs@.len(),
                q == cs@[i as int],
                find_char(cs@, k as int, q) == find_char(cs@, i + 1, q),
            decreases cs@.len() - k,
        {
            k = k + 1;
        }
        if k < cs.len() {
            Some((string_from_chars(cs, i + 1, k), k + 1))
        } else {
            None
        }
    } else {
        None
    }
}

pub fn digits_exec(cs: &Vec<char>, i: usize) -> (r: Option<usize>)
    requires
        i <= cs@.len(),
    ensures
        match r {
            Some(k) => sp_digits(cs@, i as int) == Some(k as int) && i < k <= cs@.len(),
            None => sp_digits(cs@, i as int) is None,
        },
{
    if i < cs.len() && is_digit_exec(cs[i]) {
        let mut j = i + 1;
        while j < cs.len() && is_digit_exec(cs[j])
            invariant
                i < j <= cs@.len(),
                digit_end(cs@, j as int) == digit_end(cs@, i + 1),
            decreases cs@.len() - j,
        {
            j = j + 1;
        }
        Some(j)
    } else {
        None
    }
}

/// Every character of `cs[from..to]` is a digit.
pub open spec fn digit_run(s: Seq<char>, from: int, to: int) -> bool {
    forall|j: int| from <= j < to ==> is_digit(#[trigger] s[j])
}

pub proof fn lemma_digit_end(s: Seq<char>, j: int)
    requires
        0 <= j <= s.len(),
    ensures
        j <= digit_end(s, j) <= s.len(),
        digit_run(s, j, digit_end(s, j)),
        digit_end(s, j) < s.len() ==> !is_digit(s[digit_end(s, j)]),
    decreases s.len() - j,
{
    if j < s.len() && is_digit(s[j]) {
        lemma_digit_end(s, j + 1);
    }
}

pub proof fn lemma_ident_end(s: Seq<char>, j: int)
    requires
        0 <= j <= s.len(),
    ensures
        j <= ident_end(s, j) <= s.len(),
        forall|k: int| j <= k < ident_end(s, j) ==> is_ident_char(#[trigger] s[k]),
    decreases s.len() - j,
{
    if j < s.len() && is_ident_char(s[j]) {
        lemma_ident_end(s, j + 1);
    }
}

pub proof fn lemma_skip_ws(s: Seq<char>, j: int)
    requires
        0 <= j <= s.len(),
    ensures
        j <= skip_ws(s, j) <= s.len(),
    decreases s.len() - j,
{
    if j < s.len() && is_space(s[j]) {
        lemma_skip_ws(s, j + 1);
    }
}

/// The digit values of the digit characters `cs[from..to]`.
fn digit_values(cs: &Vec<char>, from: usize, to: usize) -> (r: Vec<u8>)
    requires
        from <= to <= cs@.len(),
        digit_run(cs@, from as int, to as int),
    ensures
        r@ == char_digits(cs@.subrange(from as int, to as int)),
        all_digits(r@),
{
    let mut r: Vec<u8> = Vec::new();
    let mut j = from;
    while j < to
        invariant
            from <= j <= to,
            to <= cs@.len(),
            digit_run(cs@, from as int, to as int),
            r@ == char_digits(cs@.subrange(from as int, j as int)),
            all_digits(r@),
        decreases to - j,
    {
        let c = cs[j];
        assert(is_digit(cs@[j as int]));
        let d = ((c as u32) - 48) as u8;
        r.push(d);
        j = j + 1;
        assert(r@ =~= char_digits(cs@.subrange(from as int, j as int)));
    }
    r
}

proof fn lemma_strip_leading(ds: Seq<u8>)
    requires
        all_digits(ds),
    ensures
        all_digits(strip_leading(ds)),
        strip_leading(ds).len() > 0 ==> strip_leading(ds)[0] != 0,
    decreases ds.len(),
{
    if ds.len() > 0 && ds[0] == 0 {
        lemma_strip_leading(ds.subrange(1, ds.len() as int));
    }
}

proof fn lemma_strip_trailing(ds: Seq<u8>)
    requires
        all_digits(ds),
    ensures
        all_digits(strip_trailing(ds)),
        strip_trailing(ds).len() > 0 ==> strip_trailing(ds).last() != 0,
    decreases ds.len(),
{
    if ds.len() > 0 && ds[ds.len() - 1] == 0 {
        lemma_strip_trailing(ds.subrange(0, ds.len() - 1));
    }
}

fn strip_leading_exec(ds: Vec<u8>) -> (r: Vec<u8>)
    ensures
        r@ == strip_leading(ds@),
{
    let mut k: usize = 0;
    assert(ds@.subrange(0, ds@.len() as int) =~= ds@);
    while k < ds.len() && ds[k] == 0
        invariant
            k <= ds@.len(),
            strip_leading(ds@.subrange(k as int, ds@.len() as int)) == strip_leading(ds@),
        decreases ds@.len() - k,
    {
        assert(ds@.subrange(k as int, ds@.len() as int).subrange(1, ds@.len() - k) =~= ds@.subrange(k + 1, ds@.len() as int));
        k = k + 1;
    }
    let mut r: Vec<u8> = Vec::new();
    let mut j = k;
    while j < ds.len()
        invariant
            k <= j <= ds@.len(),
            r@ == ds@.subrange(k as int, j as int),
        decreases ds@.len() - j,
    {
        r.push(ds[j]);
        j = j + 1;
        assert(r@ =~= ds@.subrange(k as int, j as int));
    }
    assert(r@ =~= ds@.subrange(k as int, ds@.len() as int));
    r
}

fn strip_trailing_exec(ds: Vec<u8>) -> (r: Vec<u8>)
    ensures
        r@ == strip_trailing(ds@),
{
    let mut r = ds;
    while r.len() > 0 && r[r.len() - 1] == 0
        invariant
            strip_trailing(r@) == strip_trailing(ds@),
        decreases r@.len(),
    {
        let ghost before = r@;
        r.pop();
        assert(r@ =~= before.subrange(0, before.len() - 1));
    }
    r
}

/// The number written with sign `neg`, integer digit characters `cs[a..b]` and fraction digit
/// characters `cs[c..d]`.
pub fn make_number(cs: &Vec<char>, neg: bool, a: usize, b: usize, c: usize, d: usize) -> (r: Number)
    requires
        a <= b <= cs@.len(),
        c <= d <= cs@.len(),
        digit_run(cs@, a as int, b as int),
        digit_run(cs@, c as int, d as int),
    ensures
        r@ == make_num(neg, cs@.subrange(a as int, b as int), cs@.subrange(c as int, d as int)),
        r.wf(),
{
    let iv = digit_values(cs, a, b);
    let fv = digit_values(cs, c, d);
    proof {
        lemma_strip_leading(iv@);
        lemma_strip_trailing(fv@);
    }
    let id = strip_leading_exec(iv);
    let fd = strip_trailing_exec(fv);
    let negative = neg && !(id.len() == 0 && fd.len() == 0);
    Number { negative, int_digits: id, frac_digits: fd }
}

pub fn number_literal_exec(cs: &Vec<char>, i: usize) -> (r: Option<(Number, usize)>)
    requires
        i <= cs@.len(),
    ensures
        match r {
            Some((n, k)) => sp_number_literal(cs@, i as int) == Some((n@, k as int)) && i < k <= cs@.len() && n.wf(),
            None => sp_number_literal(cs@, i as int) is None,
        },
{
    let neg = i < cs.len() && cs[i] == '-';
    let a = if neg { i + 1 } else { i };
    match digits_exec(cs, a) {
        None => None,
        Some(b) => {
            proof { lemma_digit_end(cs@, a + 1); }
            if b < cs.len() && cs[b] == '.' {
                match digits_exec(cs, b + 1) {
                    Some(e) => {
                        proof { lemma_digit_end(cs@, b + 2); }
                        let n = make_number(cs, neg, a, b, b + 1, e);
                        Some((n, e))
                    },
                    None => {
                        let n = make_number(cs, neg, a, b, b, b);
                        assert(cs@.subrange(b as int, b as int) =~= Seq::<char>::empty());
                        Some((n, b))
                    },
                }
            } else {
                let n = make_number(cs, neg, a, b, b, b);
                assert(cs@.subrange(b as int, b as int) =~= Seq::<char>::empty());
                Some((n, b))
            }
        },
    }
}

pub fn boolean_literal_exec(cs: &Vec<char>, i: usize) -> (r: Option<(bool, usize)>)
    requires
        i <= cs@.len(),
    ensures
        match r {
            Some((b, k)) => sp_boolean_literal(cs@, i as int) == Some((b, k as int)) && i < k <= cs@.len(),
            None => sp_boolean_literal(cs@, i as int) is None,
        },
{
    proof {
        reveal_strlit("true");
        reveal_strlit("TRUE");
        reveal_strlit("false");
        reveal_strlit("FALSE");
    }
    let m: Option<(bool, usize)> = match tag_exec(cs, i, "true") {
        Some(j) => Some((true, j)),
        None => match tag_exec(cs, i, "TRUE") {
            Some(j) => Some((true, j)),
            None => match tag_exec(cs, i, "false") {
                Some(j) => Some((false, j)),
                None => match tag_exec(cs, i, "FALSE") {
                    Some(j) => Some((false, j)),
                    None => None,
                },
            },
        },
    };
    assert("true"@ =~= seq!['t', 'r', 'u', 'e']);
    assert("TRUE"@ =~= seq!['T', 'R', 'U', 'E']);
    assert("false"@ =~= seq!['f', 'a', 'l', 's', 'e']);
    assert("FALSE"@ =~= seq!['F', 'A', 'L', 'S', 'E']);
    match m {
        Some((b, j)) => {
            if j < cs.len() && (is_alphanumeric(cs[j]) || cs[j] == '_') {
                None
            } else {
                Some((b, j))
            }
        },
        None => None,
    }
}

} // verus!
