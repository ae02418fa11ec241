use vstd::prelude::*;
use vstd::string::StrSliceExecFns;
use vstd::string::StringExecFns;

verus! {

/// Appends one character to a string. Trusted: the body calls std's `String::push`, which the
/// contract describes as documented: the character is added at the end.
#[verifier::external_body]
pub(crate) fn push_char(s: &mut String, c: char)
    ensures
        final(s)@ == old(s)@.push(c),
{
    s.push(c);
}

/// The characters of `s`, in order.
pub fn chars_of(s: &str) -> (r: Vec<char>)
    ensures
        r@ == s@,
{
    let n = s.unicode_len();
    let mut r: Vec<char> = Vec::new();
    let mut i: usize = 0;
    while i < n
        invariant
            n == s@.len(),
            i <= n,
            r@ == s@.subrange(0, i as int),
        decreases n - i,
    {
        r.push(s.get_char(i));
        i = i + 1;
        assert(r@ =~= s@.subrange(0, i as int));
    }
    assert(r@ =~= s@);
    r
}

/// A string made of the characters `cs[from..to]`.
pub fn string_from_chars(cs: &Vec<char>, from: usize, to: usize) -> (r: String)
    requires
        from <= to <= cs@.len(),
    ensures
        r@ == cs@.subrange(from as int, to as int),
{
    let mut r = String::new();
    let mut i = from;
    while i < to
        invariant
            from <= i <= to,
            to <= cs@.len(),
            r@ == cs@.subrange(from as int, i as int),
        decreases to - i,
    {
        push_char(&mut r, cs[i]);
        i = i + 1;
        assert(r@ =~= cs@.subrange(from as int, i as int));
    }
    r
}

/// A copy of `s`.
pub fn copy_string(s: &String) -> (r: String)
    ensures
        r@ == s@,
{
    s.clone()
}

/// A string holding `s`.
pub fn own(s: &str) -> (r: String)
    ensures
        r@ == s@,
{
    String::from_str(s)
}

/// Appends `t` to `s`.
pub fn append(s: &mut String, t: &str)
    ensures
        final(s)@ == old(s)@ + t@,
{
    s.append(t);
}

/// The decimal digits of `n`, most significant first, without leading zeros (none for zero).
pub open spec fn nat_digits(n: nat) -> Seq<u8>
    decreases n,
{
    if n == 0 {
        Seq::empty()
    } else {
        nat_digits(n / 10).push((n % 10) as u8)
    }
}

/// Every entry of `nat_digits(n)` is a decimal digit.
pub proof fn lemma_nat_digits_are_digits(n: nat)
    ensures
        forall|i: int| 0 <= i < nat_digits(n).len() ==> nat_digits(n)[i] < 10,
    decreases n,
{
    if n > 0 {
        lemma_nat_digits_are_digits(n / 10);
        assert(n % 10 < 10);
        let d = nat_digits(n / 10);
        assert(nat_digits(n) == d.push((n % 10) as u8));
        assert forall|i: int| 0 <= i < nat_digits(n).len() implies nat_digits(n)[i] < 10 by {
            if i < d.len() {
                assert(nat_digits(n)[i] == d[i]);
            }
        }
    }
}

/// The leading digit of a positive number is not zero.
pub proof fn lemma_nat_digits_leading(n: nat)
    requires
        n > 0,
    ensures
        nat_digits(n).len() > 0,
        nat_digits(n)[0] != 0,
    decreases n,
{
    let d = nat_digits(n / 10);
    assert(nat_digits(n) == d.push((n % 10) as u8));
    if n / 10 > 0 {
        lemma_nat_digits_leading(n / 10);
    } else {
        assert(n < 10);
        assert(d.len() == 0);
        assert(nat_digits(n)[0] == (n % 10) as u8);
    }
}

/// The decimal digits of `n`.
pub fn usize_digits(n: usize) -> (r: Vec<u8>)
    ensures
        r@ == nat_digits(n as nat),
{
    u64_digits(n as u64)
}

/// The decimal digits of `n`.
pub fn u64_digits(n: u64) -> (r: Vec<u8>)
    ensures
        r@ == nat_digits(n as nat),
{
    let mut r: Vec<u8> = Vec::new();
    let mut m = n;
    while m > 0
        invariant
            nat_digits(n as nat) == nat_digits(m as nat) + r@,
        decreases m,
    {
        let d = (m % 10) as u8;
        r.insert(0, d);
        let ghost old_m = m;
        m = m / 10;
        assert(nat_digits(old_m as nat) == nat_digits(m as nat).push(d));
        assert(nat_digits(m as nat) + r@ =~= nat_digits(m as nat).push(d) + r@.subrange(1, r@.len() as int));
    }
    assert(nat_digits(0) + r@ =~= r@);
    r
}

/// The characters of the digits `ds`.
pub open spec fn digit_chars(ds: Seq<u8>) -> Seq<char> {
    ds.map_values(|d: u8| ((d + 48) as char))
}

/// The decimal text of `n` ("0" for zero).
pub open spec fn nat_text(n: nat) -> Seq<char> {
    if n == 0 {
        seq!['0']
    } else {
        digit_chars(nat_digits(n))
    }
}

/// The character of the digit `d`.
pub fn digit_char(d: u8) -> (c: char)
    requires
        d < 10,
    ensures
        c == ((d + 48) as char),
{
    if d == 0 { '0' }
    else if d == 1 { '1' }
    else if d == 2 { '2' }
    else if d == 3 { '3' }
    else if d == 4 { '4' }
    else if d == 5 { '5' }
    else if d == 6 { '6' }
    else if d == 7 { '7' }
    else if d == 8 { '8' }
    else { '9' }
}

/// Appends the characters of the digits `ds` to `s`.
pub fn push_digits(s: &mut String, ds: &Vec<u8>)
    requires
        forall|i: int| 0 <= i < ds@.len() ==> ds@[i] < 10,
    ensures
        final(s)@ == old(s)@ + digit_chars(ds@),
{
    let mut i: usize = 0;
    while i < ds.len()
        invariant
            forall|i: int| 0 <= i < ds@.len() ==> ds@[i] < 10,
            i <= ds@.len(),
            s@ == old(s)@ + digit_chars(ds@.subrange(0, i as int)),
        decreases ds@.len() - i,
    {
        let c = digit_char(ds[i]);
        push_char(s, c);
        i = i + 1;
        assert(digit_chars(ds@.subrange(0, i as int)) =~= digit_chars(ds@.subrange(0, i - 1)).push(c));
    }
    assert(ds@.subrange(0, ds@.len() as int) =~= ds@);
}

/// The characters of the digits, a digit out of range written as `0`.
pub open spec fn safe_digit_chars(ds: Seq<u8>) -> Seq<char> {
    ds.map_values(|d: u8| if d < 10 { ((d + 48) as char) } else { '0' })
}

/// Appends the characters of the digits `ds` (see `safe_digit_chars`).
pub fn push_safe_digits(s: &mut String, ds: &Vec<u8>)
    ensures
        final(s)@ == old(s)@ + safe_digit_chars(ds@),
{
    let mut i: usize = 0;
    while i < ds.len()
        invariant
            i <= ds@.len(),
            s@ == old(s)@ + safe_digit_chars(ds@.subrange(0, i as int)),
        decreases ds@.len() - i,
    {
        let c = if ds[i] < 10 { digit_char(ds[i]) } else { '0' };
        push_char(s, c);
        i = i + 1;
        assert(safe_digit_chars(ds@.subrange(0, i as int)) =~= safe_digit_chars(ds@.subrange(0, i - 1)).push(c));
    }
    assert(ds@.subrange(0, ds@.len() as int) =~= ds@);
}

/// Appends the decimal text of `n` to `s`.
pub fn push_usize(s: &mut String, n: usize)
    ensures
        final(s)@ == old(s)@ + nat_text(n as nat),
{
    push_u64(s, n as u64);
}

/// Appends the decimal text of `n` to `s`.
pub fn push_u64(s: &mut String, n: u64)
    ensures
        final(s)@ == old(s)@ + nat_text(n as nat),
{
    if n == 0 {
        push_char(s, '0');
        assert(seq!['0'] =~= nat_text(0));
    } else {
        let ds = u64_digits(n);
        proof { lemma_nat_digits_are_digits(n as nat); }
        push_digits(s, &ds);
    }
}

/// How a character is written inside a quoted debug string.
pub open spec fn escape_char(c: char) -> Seq<char> {
    if c == '"' {
        seq!['\\', '"']
    } else if c == '\\' {
        seq!['\\', '\\']
    } else if c == '\n' {
        seq!['\\', 'n']
    } else if c == '\r' {
        seq!['\\', 'r']
    } else if c == '\t' {
        seq!['\\', 't']
    } else if c == '\0' {
        seq!['\\', '0']
    } else {
        seq![c]
    }
}

/// The characters of `s`, each escaped.
pub open spec fn escaped(s: Seq<char>) -> Seq<char>
    decreases s.len(),
{
    if s.len() == 0 {
        Seq::empty()
    } else {
        escaped(s.drop_last()) + escape_char(s.last())
    }
}

/// `s` in double quotes, escaped, as a debug listing writes a string.
pub open spec fn debug_quoted(s: Seq<char>) -> Seq<char> {
    seq!['"'] + escaped(s) + seq!['"']
}

/// Appends `t` in double quotes, escaped (see `debug_quoted`).
pub fn push_debug_quoted(s: &mut String, t: &str)
    ensures
        final(s)@ == old(s)@ + debug_quoted(t@),
{
    let cs = chars_of(t);
    push_char(s, '"');
    let ghost s1 = s@;
    let mut i: usize = 0;
    while i < cs.len()
        invariant
            i <= cs@.len(),
            cs@ == t@,
            s@ == s1 + escaped(cs@.subrange(0, i as int)),
        decreases cs@.len() - i,
    {
        let c = cs[i];
        let ghost before = s@;
        if c == '"' {
            push_char(s, '\\');
            push_char(s, '"');
        } else if c == '\\' {
            push_char(s, '\\');
            push_char(s, '\\');
        } else if c == '\n' {
            push_char(s, '\\');
            push_char(s, 'n');
        } else if c == '\r' {
            push_char(s, '\\');
            push_char(s, 'r');
        } else if c == '\t' {
            push_char(s, '\\');
            push_char(s, 't');
        } else if c == '\0' {
            push_char(s, '\\');
            push_char(s, '0');
        } else {
            push_char(s, c);
        }
        proof {
            let pre1 = cs@.subrange(0, i as int + 1);
            assert(pre1.drop_last() =~= cs@.subrange(0, i as int));
            assert(pre1.last() == c);
            assert(s@ =~= before + escape_char(c));
            assert(s@ =~= s1 + escaped(pre1));
        }
        i = i + 1;
    }
    push_char(s, '"');
    assert(cs@.subrange(0, cs@.len() as int) =~= cs@);
    assert(s@ =~= old(s)@ + debug_quoted(t@));
}

} // verus!
