use vstd::prelude::*;
use crate::keyed::{find_slot, key_lt, keys_of, keys_sorted, lemma_insert_sorted, lemma_key_lt_irreflexive, lemma_update_keys};
use crate::text::{digit_chars, lemma_nat_digits_are_digits, lemma_nat_digits_leading, nat_digits, push_char, push_digits, push_safe_digits, safe_digit_chars, usize_digits};

verus! {

/// A decimal number held exactly: a sign, the digits before the point and the digits after it.
/// In normal form the integer digits have no leading zero, the fraction digits no trailing zero,
/// and zero is not negative.
#[derive(Debug, Clone, PartialEq)]
pub struct Number {
    pub negative: bool,
    pub int_digits: Vec<u8>,
    pub frac_digits: Vec<u8>,
}

/// The mathematical content of a [`Number`].
pub struct NumV {
    pub negative: bool,
    pub int_digits: Seq<u8>,
    pub frac_digits: Seq<u8>,
}

impl View for Number {
    type V = NumV;

    open spec fn view(&self) -> NumV {
        NumV { negative: self.negative, int_digits: self.int_digits@, frac_digits: self.frac_digits@ }
    }
}

/// Every entry is a decimal digit.
pub open spec fn all_digits(ds: Seq<u8>) -> bool {
    forall|i: int| 0 <= i < ds.len() ==> #[trigger] ds[i] < 10
}

/// `n` is in normal form.
pub open spec fn num_wf(n: NumV) -> bool {
    &&& all_digits(n.int_digits)
    &&& all_digits(n.frac_digits)
    &&& n.int_digits.len() > 0 ==> n.int_digits[0] != 0
    &&& n.frac_digits.len() > 0 ==> n.frac_digits.last() != 0
    &&& (n.int_digits.len() == 0 && n.frac_digits.len() == 0) ==> !n.negative
}

/// `a` and `b` agree before `i` and `a` is smaller there (ending first counts as smaller).
pub open spec fn digits_lt_at(a: Seq<u8>, b: Seq<u8>, i: int) -> bool {
    &&& 0 <= i <= a.len()
    &&& i <= b.len()
    &&& forall|j: int| 0 <= j < i ==> a[j] == b[j]
    &&& ((i == a.len() && i < b.len()) || (i < a.len() && i < b.len() && a[i] < b[i]))
}

/// Lexicographic order of digit strings.
pub open spec fn digits_lt(a: Seq<u8>, b: Seq<u8>) -> bool {
    exists|i: int| #[trigger] digits_lt_at(a, b, i)
}

/// The absolute value of `a` is below that of `b` (both in normal form).
pub open spec fn magnitude_lt(a: NumV, b: NumV) -> bool {
    ||| a.int_digits.len() < b.int_digits.len()
    ||| (a.int_digits.len() == b.int_digits.len() && digits_lt(a.int_digits, b.int_digits))
    ||| (a.int_digits == b.int_digits && digits_lt(a.frac_digits, b.frac_digits))
}

/// The numeric order of numbers in normal form.
pub open spec fn num_lt(a: NumV, b: NumV) -> bool {
    ||| (a.negative && !b.negative)
    ||| (!a.negative && !b.negative && magnitude_lt(a, b))
    ||| (a.negative && b.negative && magnitude_lt(b, a))
}

/// The number `n`.
pub open spec fn num_of_nat(n: nat) -> NumV {
    NumV { negative: false, int_digits: nat_digits(n), frac_digits: Seq::empty() }
}

proof fn lemma_digits_lt_asymmetric(a: Seq<u8>, b: Seq<u8>)
    requires
        digits_lt(a, b),
    ensures
        !digits_lt(b, a),
        a != b,
{
    let i = choose|i: int| digits_lt_at(a, b, i);
    if digits_lt(b, a) {
        let j = choose|j: int| digits_lt_at(b, a, j);
        if i < j {
            assert(a[i] == b[i]);
        } else if j < i {
            assert(a[j] == b[j]);
        }
    }
    if a == b {
        assert(a[i] == b[i]);
    }
}

/// Two different digit strings are ordered one way or the other.
proof fn lemma_digits_lt_total(a: Seq<u8>, b: Seq<u8>)
    requires
        a != b,
    ensures
        digits_lt(a, b) || digits_lt(b, a),
    decreases a.len(),
{
    if a.len() == 0 || b.len() == 0 {
        if a.len() == 0 && b.len() == 0 {
            assert(a =~= b);
        } else if a.len() == 0 {
            assert(digits_lt_at(a, b, 0));
        } else {
            assert(digits_lt_at(b, a, 0));
        }
    } else if a[0] != b[0] {
        if a[0] < b[0] {
            assert(digits_lt_at(a, b, 0));
        } else {
            assert(digits_lt_at(b, a, 0));
        }
    } else {
        let a1 = a.drop_first();
        let b1 = b.drop_first();
        if a1 =~= b1 {
            assert forall|i: int| 0 <= i < a.len() implies a[i] == b[i] by {
                if i > 0 {
                    assert(a1[i - 1] == b1[i - 1]);
                }
            }
            assert(a =~= b);
        }
        lemma_digits_lt_total(a1, b1);
        if digits_lt(a1, b1) {
            let i = choose|i: int| digits_lt_at(a1, b1, i);
            assert forall|j: int| 0 <= j < i + 1 implies a[j] == b[j] by {
                if j > 0 {
                    assert(a1[j - 1] == b1[j - 1]);
                }
            }
            assert(digits_lt_at(a, b, i + 1));
        } else {
            let i = choose|i: int| digits_lt_at(b1, a1, i);
            assert forall|j: int| 0 <= j < i + 1 implies b[j] == a[j] by {
                if j > 0 {
                    assert(a1[j - 1] == b1[j - 1]);
                }
            }
            assert(digits_lt_at(b, a, i + 1));
        }
    }
}

/// The order of numbers is strict: `a < b` and `b < a` never hold together, and never of
/// equal numbers.
pub proof fn lemma_num_lt_asymmetric(a: NumV, b: NumV)
    requires
        num_lt(a, b),
    ensures
        !num_lt(b, a),
        a != b,
{
    if a.int_digits.len() == b.int_digits.len() && digits_lt(a.int_digits, b.int_digits) {
        lemma_digits_lt_asymmetric(a.int_digits, b.int_digits);
    }
    if a.int_digits.len() == b.int_digits.len() && digits_lt(b.int_digits, a.int_digits) {
        lemma_digits_lt_asymmetric(b.int_digits, a.int_digits);
    }
    if a.int_digits == b.int_digits && digits_lt(a.frac_digits, b.frac_digits) {
        lemma_digits_lt_asymmetric(a.frac_digits, b.frac_digits);
    }
    if a.int_digits == b.int_digits && digits_lt(b.frac_digits, a.frac_digits) {
        lemma_digits_lt_asymmetric(b.frac_digits, a.frac_digits);
    }
}

/// The order of numbers is total: two different numbers are ordered one way or the other.
pub proof fn lemma_num_lt_total(a: NumV, b: NumV)
    requires
        a != b,
    ensures
        num_lt(a, b) || num_lt(b, a),
{
    if a.negative == b.negative {
        if a.int_digits.len() == b.int_digits.len() {
            if a.int_digits != b.int_digits {
                lemma_digits_lt_total(a.int_digits, b.int_digits);
            } else {
                if a.frac_digits == b.frac_digits {
                    assert(a == b);
                }
                lemma_digits_lt_total(a.frac_digits, b.frac_digits);
            }
        }
    }
}

/// Three-way comparison of digit strings.
fn compare_digits(a: &Vec<u8>, b: &Vec<u8>) -> (r: i8)
    ensures
        r == 0 <==> a@ == b@,
        r < 0 <==> digits_lt(a@, b@),
        r > 0 <==> digits_lt(b@, a@),
        -1 <= r <= 1,
{
    let mut i: usize = 0;
    while i < a.len() && i < b.len()
        invariant
            i <= a@.len(),
            i <= b@.len(),
            forall|j: int| 0 <= j < i ==> a@[j] == b@[j],
        decreases a@.len() - i,
    {
        if a[i] < b[i] {
            assert(digits_lt_at(a@, b@, i as int));
            proof { lemma_digits_lt_asymmetric(a@, b@); }
            return -1;
        }
        if b[i] < a[i] {
            assert(digits_lt_at(b@, a@, i as int));
            proof { lemma_digits_lt_asymmetric(b@, a@); }
            return 1;
        }
        i = i + 1;
    }
    if a.len() == b.len() {
        assert(a@ =~= b@);
        0
    } else if a.len() < b.len() {
        assert(digits_lt_at(a@, b@, i as int));
        proof { lemma_digits_lt_asymmetric(a@, b@); }
        -1
    } else {
        assert(digits_lt_at(b@, a@, i as int));
        proof { lemma_digits_lt_asymmetric(b@, a@); }
        1
    }
}

/// Three-way comparison of magnitudes.
fn compare_magnitudes(a: &Number, b: &Number) -> (r: i8)
    ensures
        r == 0 <==> (a@.int_digits == b@.int_digits && a@.frac_digits == b@.frac_digits),
        r < 0 <==> magnitude_lt(a@, b@),
        r > 0 <==> magnitude_lt(b@, a@),
{
    if a.int_digits.len() < b.int_digits.len() {
        return -1;
    }
    if b.int_digits.len() < a.int_digits.len() {
        return 1;
    }
    let c = compare_digits(&a.int_digits, &b.int_digits);
    if c != 0 {
        return c;
    }
    compare_digits(&a.frac_digits, &b.frac_digits)
}

impl Number {
    /// The number is in normal form.
    pub open spec fn wf(&self) -> bool {
        num_wf(self@)
    }

    /// Three-way numeric comparison: -1, 0 or 1 as `self` is below, equal to or above `other`.
    pub fn compare(&self, other: &Number) -> (r: i8)
        ensures
            r == 0 <==> self@ == other@,
            r < 0 <==> num_lt(self@, other@),
            r > 0 <==> num_lt(other@, self@),
    {
        if self.negative && !other.negative {
            return -1;
        }
        if !self.negative && other.negative {
            return 1;
        }
        let c = compare_magnitudes(self, other);
        if c == 0 {
            assert(self@ == other@);
            0
        } else if self.negative {
            if c < 0 { 1 } else { -1 }
        } else {
            c
        }
    }

    /// The number is in normal form (see `num_wf`).
    pub fn check_wf(&self) -> (r: bool)
        ensures
            r == self.wf(),
    {
        let mut i: usize = 0;
        while i < self.int_digits.len()
            invariant
                i <= self.int_digits@.len(),
                forall|j: int| 0 <= j < i ==> #[trigger] self.int_digits@[j] < 10,
            decreases self.int_digits@.len() - i,
        {
            if self.int_digits[i] >= 10 {
                assert(!all_digits(self.int_digits@));
                return false;
            }
            i = i + 1;
        }
        let mut i: usize = 0;
        while i < self.frac_digits.len()
            invariant
                i <= self.frac_digits@.len(),
                forall|j: int| 0 <= j < i ==> #[trigger] self.frac_digits@[j] < 10,
            decreases self.frac_digits@.len() - i,
        {
            if self.frac_digits[i] >= 10 {
                assert(!all_digits(self.frac_digits@));
                return false;
            }
            i = i + 1;
        }
        if self.int_digits.len() > 0 && self.int_digits[0] == 0 {
            return false;
        }
        if self.frac_digits.len() > 0 && self.frac_digits[self.frac_digits.len() - 1] == 0 {
            return false;
        }
        if self.int_digits.len() == 0 && self.frac_digits.len() == 0 && self.negative {
            return false;
        }
        true
    }

    /// The two numbers are equal.
    pub fn equals(&self, other: &Number) -> (r: bool)
        ensures
            r == (self@ == other@),
    {
        self.compare(other) == 0
    }

    /// A copy of the number.
    pub fn copy(&self) -> (r: Number)
        ensures
            r@ == self@,
    {
        Number { negative: self.negative, int_digits: self.int_digits.clone(), frac_digits: self.frac_digits.clone() }
    }

    /// The number `n`.
    pub fn from_usize(n: usize) -> (r: Number)
        ensures
            r@ == num_of_nat(n as nat),
            r.wf(),
    {
        let ds = usize_digits(n);
        proof {
            lemma_nat_digits_are_digits(n as nat);
            if n > 0 {
                lemma_nat_digits_leading(n as nat);
            }
        }
        Number { negative: false, int_digits: ds, frac_digits: Vec::new() }
    }
}

/// The text a number is written as in query results: digits, a point and at least one digit after it.
pub open spec fn number_text(n: NumV) -> Seq<char> {
    (if n.negative { seq!['-'] } else { Seq::empty() })
        + (if n.int_digits.len() == 0 { seq!['0'] } else { safe_digit_chars(n.int_digits) })
        + seq!['.']
        + (if n.frac_digits.len() == 0 { seq!['0'] } else { safe_digit_chars(n.frac_digits) })
}

/// Appends the text of `n` to `s`.
pub fn push_number_text(s: &mut String, n: &Number)
    ensures
        final(s)@ == old(s)@ + number_text(n@),
{
    let ghost s0 = s@;
    if n.negative {
        push_char(s, '-');
    }
    let ghost s1 = s@;
    assert(s1 == s0 + (if n@.negative { seq!['-'] } else { Seq::<char>::empty() }));
    if n.int_digits.len() == 0 {
        push_char(s, '0');
    } else {
        push_safe_digits(s, &n.int_digits);
    }
    let ghost s2 = s@;
    assert(s2 == s1 + (if n@.int_digits.len() == 0 { seq!['0'] } else { safe_digit_chars(n@.int_digits) }));
    push_char(s, '.');
    if n.frac_digits.len() == 0 {
        push_char(s, '0');
    } else {
        push_safe_digits(s, &n.frac_digits);
    }
    assert(s@ =~= old(s)@ + number_text(n@));
}

/// A property value.
#[derive(Debug, Clone, PartialEq)]
pub enum PropertyValue {
    Boolean(bool),
    Number(Number),
    String(String),
}

/// The mathematical content of a [`PropertyValue`].
pub enum PropV {
    Boolean(bool),
    Number(NumV),
    Text(Seq<char>),
}

impl View for PropertyValue {
    type V = PropV;

    open spec fn view(&self) -> PropV {
        match self {
            PropertyValue::Boolean(b) => PropV::Boolean(*b),
            PropertyValue::Number(n) => PropV::Number(n@),
            PropertyValue::String(s) => PropV::Text(s@),
        }
    }
}

/// A property value is well formed when its number is in normal form.
pub open spec fn propv_wf(v: PropV) -> bool {
    match v {
        PropV::Number(n) => num_wf(n),
        _ => true,
    }
}

impl PropertyValue {
    pub open spec fn wf(&self) -> bool {
        propv_wf(self@)
    }

    /// The two values are equal (same kind and same content).
    pub fn equals(&self, other: &PropertyValue) -> (r: bool)
        ensures
            r == (self@ == other@),
    {
        match (self, other) {
            (PropertyValue::Boolean(a), PropertyValue::Boolean(b)) => *a == *b,
            (PropertyValue::Number(a), PropertyValue::Number(b)) => a.equals(b),
            (PropertyValue::String(a), PropertyValue::String(b)) => {
                let r = *a == *b;
                r
            },
            _ => false,
        }
    }

    /// The value is well formed (its number, if any, is in normal form).
    pub fn check_wf(&self) -> (r: bool)
        ensures
            r == self.wf(),
    {
        match self {
            PropertyValue::Number(n) => n.check_wf(),
            _ => true,
        }
    }

    /// A copy of the value.
    pub fn copy(&self) -> (r: PropertyValue)
        ensures
            r@ == self@,
    {
        match self {
            PropertyValue::Boolean(b) => PropertyValue::Boolean(*b),
            PropertyValue::Number(n) => PropertyValue::Number(n.copy()),
            PropertyValue::String(s) => PropertyValue::String(s.clone()),
        }
    }
}

/// Entry `i` holds the key `k`.
pub open spec fn has_key_at(entries: Seq<(String, PropertyValue)>, k: Seq<char>, i: int) -> bool {
    0 <= i < entries.len() && entries[i].0@ == k
}

/// The value stored under `k` in a list of entries.
pub open spec fn lookup(entries: Seq<(String, PropertyValue)>, k: Seq<char>) -> Option<PropV> {
    if exists|i: int| #[trigger] has_key_at(entries, k, i) {
        Some(entries[choose|i: int| #[trigger] has_key_at(entries, k, i)].1@)
    } else {
        None
    }
}

/// Properties: a map from names to values, kept in increasing order of names.
#[derive(Debug, Clone, PartialEq)]
pub struct PropertyMap {
    entries: Vec<(String, PropertyValue)>,
}

impl View for PropertyMap {
    type V = Map<Seq<char>, PropV>;

    closed spec fn view(&self) -> Map<Seq<char>, PropV> {
        Map::new(|k: Seq<char>| lookup(self.entries@, k) is Some, |k: Seq<char>| lookup(self.entries@, k).unwrap())
    }
}

/// Keys that strictly increase are distinct.
proof fn lemma_sorted_distinct(ks: Seq<Seq<char>>, i: int, j: int)
    requires
        keys_sorted(ks),
        0 <= i < ks.len(),
        0 <= j < ks.len(),
        ks[i] == ks[j],
    ensures
        i == j,
{
    if i < j {
        assert(key_lt(ks[i], ks[j]));
        lemma_key_lt_irreflexive(ks[i]);
    } else if j < i {
        assert(key_lt(ks[j], ks[i]));
        lemma_key_lt_irreflexive(ks[i]);
    }
}

/// In sorted entries the lookup finds the entry at the position that holds the key.
proof fn lemma_lookup_at(entries: Seq<(String, PropertyValue)>, i: int)
    requires
        keys_sorted(keys_of(entries)),
        0 <= i < entries.len(),
    ensures
        lookup(entries, entries[i].0@) == Some(entries[i].1@),
{
    let k = entries[i].0@;
    assert(has_key_at(entries, k, i));
    let j = choose|j: int| #[trigger] has_key_at(entries, k, j);
    assert(keys_of(entries)[i] == k);
    assert(keys_of(entries)[j] == k);
    lemma_sorted_distinct(keys_of(entries), i, j);
}

/// A key no entry holds is not found.
proof fn lemma_lookup_absent(entries: Seq<(String, PropertyValue)>, k: Seq<char>)
    requires
        forall|i: int| 0 <= i < entries.len() ==> #[trigger] entries[i].0@ != k,
    ensures
        lookup(entries, k) is None,
{
    assert forall|i: int| !has_key_at(entries, k, i) by {
        if 0 <= i < entries.len() {
            assert(entries[i].0@ != k);
        }
    }
}

impl PropertyMap {
    /// Names strictly increase and every value is well formed.
    pub closed spec fn wf(&self) -> bool {
        &&& keys_sorted(keys_of(self.entries@))
        &&& forall|i: int| 0 <= i < self.entries@.len() ==> (#[trigger] self.entries@[i]).1.wf()
    }

    /// The entries in increasing order of names.
    pub closed spec fn ordered(&self) -> Seq<(Seq<char>, PropV)> {
        self.entries@.map_values(|e: (String, PropertyValue)| (e.0@, e.1@))
    }

    /// The ordered entries are those of the map, in strictly increasing order of names.
    pub proof fn lemma_ordered(&self)
        requires
            self.wf(),
        ensures
            forall|i: int, j: int| 0 <= i < j < self.ordered().len() ==>
                key_lt(#[trigger] self.ordered()[i].0, #[trigger] self.ordered()[j].0),
            forall|i: int| 0 <= i < self.ordered().len() ==>
                self@.contains_key(#[trigger] self.ordered()[i].0) && self@[self.ordered()[i].0] == self.ordered()[i].1
                && propv_wf(self.ordered()[i].1),
            forall|k: Seq<char>| #[trigger] self@.contains_key(k) ==>
                exists|i: int| 0 <= i < self.ordered().len() && #[trigger] self.ordered()[i].0 == k,
            self@.dom().finite(),
            self@.dom().len() == self.ordered().len(),
    {
        let es = self.entries@;
        assert forall|i: int, j: int| 0 <= i < j < self.ordered().len() implies
            key_lt(#[trigger] self.ordered()[i].0, #[trigger] self.ordered()[j].0) by {
            assert(keys_of(es)[i] == self.ordered()[i].0);
            assert(keys_of(es)[j] == self.ordered()[j].0);
        }
        assert forall|i: int| 0 <= i < self.ordered().len() implies
            self@.contains_key(#[trigger] self.ordered()[i].0) && self@[self.ordered()[i].0] == self.ordered()[i].1
            && propv_wf(self.ordered()[i].1) by {
            lemma_lookup_at(es, i);
            assert(es[i].1.wf());
        }
        let ks = keys_of(es);
        assert(self@.dom() =~= ks.to_set()) by {
            assert forall|k: Seq<char>| self@.dom().contains(k) implies ks.to_set().contains(k) by {
                let i = choose|i: int| #[trigger] has_key_at(es, k, i);
                assert(ks[i] == k);
            }
            assert forall|k: Seq<char>| ks.to_set().contains(k) implies self@.dom().contains(k) by {
                let i = choose|i: int| 0 <= i < ks.len() && ks[i] == k;
                assert(has_key_at(es, k, i));
            }
        }
        assert forall|k: Seq<char>| #[trigger] self@.contains_key(k) implies
            exists|i: int| 0 <= i < self.ordered().len() && #[trigger] self.ordered()[i].0 == k by {
            let i = choose|i: int| #[trigger] has_key_at(es, k, i);
            assert(self.ordered()[i].0 == k);
        }
        assert forall|i: int, j: int| 0 <= i < ks.len() && 0 <= j < ks.len() && i != j implies ks[i] != ks[j] by {
            if ks[i] == ks[j] {
                lemma_sorted_distinct(ks, i, j);
            }
        }
        assert(ks.no_duplicates());
        ks.unique_seq_to_set();
    }

    /// No properties.
    pub fn new() -> (r: PropertyMap)
        ensures
            r.wf(),
            r@ == Map::<Seq<char>, PropV>::empty(),
    {
        let r = PropertyMap { entries: Vec::new() };
        assert(r@ =~= Map::<Seq<char>, PropV>::empty());
        r
    }

    /// The number of properties.
    pub fn len(&self) -> (r: usize)
        ensures
            r == self.ordered().len(),
    {
        self.entries.len()
    }

    /// The `i`th property in increasing order of names.
    pub fn entry(&self, i: usize) -> (r: (&String, &PropertyValue))
        requires
            i < self.ordered().len(),
        ensures
            r.0@ == self.ordered()[i as int].0,
            r.1@ == self.ordered()[i as int].1,
            self.wf() ==> r.1.wf(),
    {
        (&self.entries[i].0, &self.entries[i].1)
    }

    /// The value of the property `k`.
    pub fn get(&self, k: &str) -> (r: Option<&PropertyValue>)
        requires
            self.wf(),
        ensures
            match r {
                Some(v) => self@.contains_key(k@) && self@[k@] == v@,
                None => !self@.contains_key(k@),
            },
    {
        let (pos, found) = find_slot(&self.entries, k);
        if found {
            proof { lemma_lookup_at(self.entries@, pos as int); }
            Some(&self.entries[pos].1)
        } else {
            proof {
                assert forall|i: int| 0 <= i < self.entries@.len() implies #[trigger] self.entries@[i].0@ != k@ by {
                    assert(keys_of(self.entries@)[i] == self.entries@[i].0@);
                    if i < pos {
                        assert(key_lt(keys_of(self.entries@)[i], k@));
                    } else {
                        assert(key_lt(k@, keys_of(self.entries@)[i]));
                    }
                    lemma_key_lt_irreflexive(k@);
                }
                lemma_lookup_absent(self.entries@, k@);
            }
            None
        }
    }

    /// Sets the property `k` to `v`.
    pub fn insert(&mut self, k: String, v: PropertyValue)
        requires
            old(self).wf(),
            v.wf(),
        ensures
            final(self).wf(),
            final(self)@ == old(self)@.insert(k@, v@),
    {
        let (pos, found) = find_slot(&self.entries, k.as_str());
        let ghost old_es = self.entries@;
        let ghost kv = k@;
        let ghost vv = v@;
        if found {
            self.entries.set(pos, (k, v));
            proof {
                lemma_update_keys(old_es, pos as int, self.entries@[pos as int]);
            }
        } else {
            proof {
                lemma_insert_sorted(old_es, pos as int, (k, v));
            }
            self.entries.insert(pos, (k, v));
        }
        proof {
            let es = self.entries@;
            assert(keys_sorted(keys_of(es)));
            assert forall|i: int| 0 <= i < es.len() implies (#[trigger] es[i]).1.wf() by {
                if found {
                    if i != pos { assert(es[i] == old_es[i]); }
                } else {
                    if i < pos { assert(es[i] == old_es[i]); } else if i > pos { assert(es[i] == old_es[i - 1]); }
                }
            }
            let ipos: int = pos as int;
            assert(es[ipos].0@ == kv);
            lemma_lookup_at(es, ipos);
            assert forall|k2: Seq<char>| k2 != kv implies lookup(es, k2) == lookup(old_es, k2) by {
                if exists|i: int| #[trigger] has_key_at(old_es, k2, i) {
                    let i = choose|i: int| #[trigger] has_key_at(old_es, k2, i);
                    lemma_lookup_at(old_es, i);
                    let ni = if found { i } else if i < ipos { i } else { i + 1 };
                    assert(es[ni] == old_es[i]);
                    lemma_lookup_at(es, ni);
                } else {
                    assert forall|j: int| 0 <= j < es.len() implies #[trigger] es[j].0@ != k2 by {
                        if j != ipos {
                            let oj = if found { j } else if j < ipos { j } else { j - 1 };
                            assert(es[j] == old_es[oj]);
                            assert(!has_key_at(old_es, k2, oj));
                        }
                    }
                }
            }
            assert(self@ =~= old(self)@.insert(kv, vv));
        }
    }

    /// Removes the property `k`; returns its old value.
    pub fn remove(&mut self, k: &str) -> (r: Option<PropertyValue>)
        requires
            old(self).wf(),
        ensures
            final(self).wf(),
            final(self)@ == old(self)@.remove(k@),
            match r {
                Some(v) => old(self)@.contains_key(k@) && old(self)@[k@] == v@,
                None => !old(self)@.contains_key(k@),
            },
    {
        let (pos, found) = find_slot(&self.entries, k);
        let ghost old_es = self.entries@;
        if found {
            proof { lemma_lookup_at(old_es, pos as int); }
            let (_, v) = self.entries.remove(pos);
            proof {
                let es = self.entries@;
                let ipos: int = pos as int;
                assert(keys_of(es) =~= keys_of(old_es).remove(ipos));
                assert forall|i: int, j: int| 0 <= i < j < keys_of(es).len() implies
                    key_lt(#[trigger] keys_of(es)[i], #[trigger] keys_of(es)[j]) by {
                    let oi = if i < ipos { i } else { i + 1 };
                    let oj = if j < ipos { j } else { j + 1 };
                    assert(key_lt(keys_of(old_es)[oi], keys_of(old_es)[oj]));
                }
                assert forall|i: int| 0 <= i < es.len() implies (#[trigger] es[i]).1.wf() by {
                    let oi = if i < ipos { i } else { i + 1 };
                    assert(es[i] == old_es[oi]);
                }
                assert forall|k2: Seq<char>| k2 != k@ implies lookup(es, k2) == lookup(old_es, k2) by {
                    if exists|i: int| #[trigger] has_key_at(old_es, k2, i) {
                        let i = choose|i: int| #[trigger] has_key_at(old_es, k2, i);
                        lemma_lookup_at(old_es, i);
                        assert(i != ipos);
                        let ni = if i < ipos { i } else { i - 1 };
                        assert(es[ni] == old_es[i]);
                        lemma_lookup_at(es, ni);
                    } else {
                        assert forall|j: int| 0 <= j < es.len() implies #[trigger] es[j].0@ != k2 by {
                            let oj = if j < ipos { j } else { j + 1 };
                            assert(es[j] == old_es[oj]);
                            assert(!has_key_at(old_es, k2, oj));
                        }
                    }
                }
                assert forall|j: int| 0 <= j < es.len() implies #[trigger] es[j].0@ != k@ by {
                    let oj = if j < ipos { j } else { j + 1 };
                    assert(es[j] == old_es[oj]);
                    assert(keys_of(old_es)[oj] == old_es[oj].0@);
                    assert(keys_of(old_es)[ipos] == k@);
                    if old_es[oj].0@ == k@ {
                        lemma_sorted_distinct(keys_of(old_es), oj, ipos);
                    }
                }
                assert(self@ =~= old(self)@.remove(k@));
            }
            Some(v)
        } else {
            proof {
                assert forall|i: int| 0 <= i < old_es.len() implies #[trigger] old_es[i].0@ != k@ by {
                    assert(keys_of(old_es)[i] == old_es[i].0@);
                    if i < pos {
                        assert(key_lt(keys_of(old_es)[i], k@));
                    } else {
                        assert(key_lt(k@, keys_of(old_es)[i]));
                    }
                    lemma_key_lt_irreflexive(k@);
                }
                assert(self@ =~= old(self)@.remove(k@));
            }
            None
        }
    }

    /// The map is well formed: names strictly increase and every value is well formed.
    pub fn check_wf(&self) -> (r: bool)
        ensures
            r == self.wf(),
    {
        let ghost ks = keys_of(self.entries@);
        let n = self.entries.len();
        let mut i: usize = 0;
        while i < n
            invariant
                n == self.entries@.len(),
                ks == keys_of(self.entries@),
                i <= n,
                forall|a: int, b: int| 0 <= a < b < i ==> key_lt(#[trigger] ks[a], #[trigger] ks[b]),
                forall|a: int| 0 <= a < i ==> (#[trigger] self.entries@[a]).1.wf(),
            decreases n - i,
        {
            if !self.entries[i].1.check_wf() {
                return false;
            }
            if i > 0 {
                let c = crate::keyed::compare_text(self.entries[i - 1].0.as_str(), self.entries[i].0.as_str());
                if c >= 0 {
                    assert(!key_lt(ks[i - 1], ks[i as int]));
                    return false;
                }
                proof {
                    assert forall|a: int, b: int| 0 <= a < b < i + 1 implies key_lt(#[trigger] ks[a], #[trigger] ks[b]) by {
                        if b == i && a < i - 1 {
                            crate::keyed::lemma_key_lt_transitive(ks[a], ks[i - 1], ks[b]);
                        }
                    }
                }
            }
            i = i + 1;
        }
        true
    }

    /// A copy of the properties.
    pub fn copy(&self) -> (r: PropertyMap)
        requires
            self.wf(),
        ensures
            r.wf(),
            r@ == self@,
            r.ordered() == self.ordered(),
    {
        let mut es: Vec<(String, PropertyValue)> = Vec::new();
        let mut i: usize = 0;
        while i < self.entries.len()
            invariant
                i <= self.entries@.len(),
                es@.len() == i,
                forall|j: int| 0 <= j < i ==> (#[trigger] es@[j]).0@ == self.entries@[j].0@ && es@[j].1@ == self.entries@[j].1@,
            decreases self.entries@.len() - i,
        {
            es.push((self.entries[i].0.clone(), self.entries[i].1.copy()));
            i = i + 1;
        }
        let r = PropertyMap { entries: es };
        proof {
            assert(keys_of(es@) =~= keys_of(self.entries@));
            assert forall|j: int| 0 <= j < es@.len() implies (#[trigger] es@[j]).1.wf() by {
                assert(self.entries@[j].1.wf());
            }
            assert forall|k: Seq<char>| lookup(es@, k) == lookup(self.entries@, k) by {
                if exists|j: int| #[trigger] has_key_at(es@, k, j) {
                    let j = choose|j: int| #[trigger] has_key_at(es@, k, j);
                    lemma_lookup_at(es@, j);
                    lemma_lookup_at(self.entries@, j);
                } else {
                    assert forall|j: int| 0 <= j < self.entries@.len() implies #[trigger] self.entries@[j].0@ != k by {
                        assert(es@[j].0@ == self.entries@[j].0@);
                        assert(!has_key_at(es@, k, j));
                    }
                }
            }
            assert(r@ =~= self@);
            assert(r.ordered() =~= self.ordered());
        }
        r
    }

    /// Every property of `pattern` is present here with an equal value.
    pub fn contains_all(&self, pattern: &PropertyMap) -> (r: bool)
        requires
            self.wf(),
            pattern.wf(),
        ensures
            r == (forall|k: Seq<char>| #[trigger] pattern@.contains_key(k) ==>
                self@.contains_key(k) && self@[k] == pattern@[k]),
    {
        proof { pattern.lemma_ordered(); }
        let mut i: usize = 0;
        while i < pattern.entries.len()
            invariant
                self.wf(),
                pattern.wf(),
                i <= pattern.entries@.len(),
                forall|j: int| 0 <= j < i ==>
                    self@.contains_key(#[trigger] pattern.ordered()[j].0) && self@[pattern.ordered()[j].0] == pattern.ordered()[j].1,
            decreases pattern.entries@.len() - i,
        {
            let (k, v) = (&pattern.entries[i].0, &pattern.entries[i].1);
            match self.get(k.as_str()) {
                Some(w) => {
                    if !w.equals(v) {
                        proof { pattern.lemma_ordered(); }
                        assert(pattern.ordered()[i as int].0 == k@);
                        return false;
                    }
                },
                None => {
                    proof { pattern.lemma_ordered(); }
                    assert(pattern.ordered()[i as int].0 == k@);
                    return false;
                },
            }
            i = i + 1;
        }
        proof {
            pattern.lemma_ordered();
            assert forall|k: Seq<char>| #[trigger] pattern@.contains_key(k) implies
                self@.contains_key(k) && self@[k] == pattern@[k] by {
                let j = choose|j: int| 0 <= j < pattern.ordered().len() && #[trigger] pattern.ordered()[j].0 == k;
            }
        }
        true
    }
}

} // verus!
