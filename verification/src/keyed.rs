use vstd::prelude::*;
use vstd::string::StrSliceExecFns;

verus! {

/// `a` and `b` agree before position `i`, and there `a` is the smaller: it ends first, or its
/// character has the lower code point.
pub open spec fn lt_at(a: Seq<char>, b: Seq<char>, i: int) -> bool {
    &&& 0 <= i <= a.len()
    &&& i <= b.len()
    &&& forall|j: int| 0 <= j < i ==> a[j] == b[j]
    &&& ((i == a.len() && i < b.len()) || (i < a.len() && i < b.len() && (a[i] as u32) < (b[i] as u32)))
}

/// The lexicographic order of strings by code point (that of Rust's `str`).
pub open spec fn key_lt(a: Seq<char>, b: Seq<char>) -> bool {
    exists|i: int| #[trigger] lt_at(a, b, i)
}

/// The order is strict.
pub proof fn lemma_key_lt_irreflexive(a: Seq<char>)
    ensures
        !key_lt(a, a),
{
}

/// The order is total: two different strings are ordered one way or the other.
pub proof fn lemma_key_lt_total(a: Seq<char>, b: Seq<char>)
    requires
        a != b,
    ensures
        key_lt(a, b) || key_lt(b, a),
    decreases a.len(),
{
    if a.len() == 0 || b.len() == 0 {
        if a.len() == 0 && b.len() == 0 {
            assert(a =~= b);
        } else if a.len() == 0 {
            assert(lt_at(a, b, 0));
        } else {
            assert(lt_at(b, a, 0));
        }
    } else if a[0] != b[0] {
        vstd::utf8::char_u32_cast(a[0], a[0] as u32);
        vstd::utf8::char_u32_cast(b[0], b[0] as u32);
        if (a[0] as u32) < (b[0] as u32) {
            assert(lt_at(a, b, 0));
        } else {
            assert(lt_at(b, a, 0));
        }
    } else {
        let a1 = a.drop_first();
        let b1 = b.drop_first();
        if a1 =~= b1 {
            assert forall|i: int| 0 <= i < a.len() implies a[i] == b[i] by {
                if i > 0 {
                    assert(a1[i - 1] == b1[i - 1]);
                }
            }
            assert(a =~= b);
        }
        lemma_key_lt_total(a1, b1);
        if key_lt(a1, b1) {
            let i = choose|i: int| lt_at(a1, b1, i);
            assert forall|j: int| 0 <= j < i + 1 implies a[j] == b[j] by {
                if j > 0 {
                    assert(a1[j - 1] == b1[j - 1]);
                }
            }
            assert(lt_at(a, b, i + 1));
        } else {
            let i = choose|i: int| lt_at(b1, a1, i);
            assert forall|j: int| 0 <= j < i + 1 implies b[j] == a[j] by {
                if j > 0 {
                    assert(a1[j - 1] == b1[j - 1]);
                }
            }
            assert(lt_at(b, a, i + 1));
        }
    }
}

/// The order is transitive.
pub proof fn lemma_key_lt_transitive(a: Seq<char>, b: Seq<char>, c: Seq<char>)
    requires
        key_lt(a, b),
        key_lt(b, c),
    ensures
        key_lt(a, c),
{
    let i = choose|i: int| lt_at(a, b, i);
    let j = choose|j: int| lt_at(b, c, j);
    let k = if i < j { i } else { j };
    assert(lt_at(a, c, k));
}

/// The order is asymmetric.
pub proof fn lemma_key_lt_asymmetric(a: Seq<char>, b: Seq<char>)
    requires
        key_lt(a, b),
    ensures
        !key_lt(b, a),
{
    if key_lt(b, a) {
        lemma_key_lt_transitive(a, b, a);
    }
}

/// The two strings are equal.
pub fn str_eq(a: &str, b: &str) -> (r: bool)
    ensures
        r == (a@ == b@),
{
    compare_text(a, b) == 0
}

/// Three-way comparison of two strings: -1, 0 or 1 as `a` is below, equal to or above `b`.
pub fn compare_text(a: &str, b: &str) -> (r: i8)
    ensures
        r == 0 <==> a@ == b@,
        r < 0 <==> key_lt(a@, b@),
        r > 0 <==> key_lt(b@, a@),
        -1 <= r <= 1,
{
    let la = a.unicode_len();
    let lb = b.unicode_len();
    let mut i: usize = 0;
    while i < la && i < lb
        invariant
            la == a@.len(),
            lb == b@.len(),
            i <= la,
            i <= lb,
            forall|j: int| 0 <= j < i ==> a@[j] == b@[j],
        decreases la - i,
    {
        let ca = a.get_char(i);
        let cb = b.get_char(i);
        if (ca as u32) < (cb as u32) {
            assert(lt_at(a@, b@, i as int));
            proof { lemma_key_lt_asymmetric(a@, b@); }
            return -1;
        }
        if (cb as u32) < (ca as u32) {
            assert(lt_at(b@, a@, i as int));
            proof { lemma_key_lt_asymmetric(b@, a@); }
            return 1;
        }
        assert(ca == cb);
        i = i + 1;
    }
    if la == lb {
        assert(a@ =~= b@);
        0
    } else if la < lb {
        assert(lt_at(a@, b@, i as int));
        proof { lemma_key_lt_asymmetric(a@, b@); }
        -1
    } else {
        assert(lt_at(b@, a@, i as int));
        proof { lemma_key_lt_asymmetric(b@, a@); }
        1
    }
}

/// The keys of a list of keyed entries.
pub open spec fn keys_of<V>(entries: Seq<(String, V)>) -> Seq<Seq<char>> {
    entries.map_values(|e: (String, V)| e.0@)
}

/// The keys strictly increase.
pub open spec fn keys_sorted(keys: Seq<Seq<char>>) -> bool {
    forall|i: int, j: int| 0 <= i < j < keys.len() ==> key_lt(#[trigger] keys[i], #[trigger] keys[j])
}

/// Where `k` is, or where it belongs, in entries whose keys strictly increase.
pub fn find_slot<V>(entries: &Vec<(String, V)>, k: &str) -> (r: (usize, bool))
    requires
        keys_sorted(keys_of(entries@)),
    ensures
        r.0 <= entries@.len(),
        r.1 ==> r.0 < entries@.len() && entries@[r.0 as int].0@ == k@,
        !r.1 ==> forall|i: int| 0 <= i < r.0 ==> key_lt(#[trigger] keys_of(entries@)[i], k@),
        !r.1 ==> forall|i: int| r.0 <= i < entries@.len() ==> key_lt(k@, #[trigger] keys_of(entries@)[i]),
{
    let mut i: usize = 0;
    while i < entries.len()
        invariant
            i <= entries@.len(),
            keys_sorted(keys_of(entries@)),
            forall|j: int| 0 <= j < i ==> key_lt(#[trigger] keys_of(entries@)[j], k@),
        decreases entries@.len() - i,
    {
        let c = compare_text(entries[i].0.as_str(), k);
        if c == 0 {
            return (i, true);
        }
        if c > 0 {
            proof {
                assert forall|j: int| i <= j < entries@.len() implies key_lt(k@, #[trigger] keys_of(entries@)[j]) by {
                    if j > i {
                        assert(key_lt(keys_of(entries@)[i as int], keys_of(entries@)[j]));
                        lemma_key_lt_transitive(k@, keys_of(entries@)[i as int], keys_of(entries@)[j]);
                    }
                }
            }
            return (i, false);
        }
        i = i + 1;
    }
    (i, false)
}

/// Inserting an entry where `find_slot` said it belongs keeps the keys increasing.
pub proof fn lemma_insert_sorted<V>(entries: Seq<(String, V)>, pos: int, e: (String, V))
    requires
        keys_sorted(keys_of(entries)),
        0 <= pos <= entries.len(),
        forall|i: int| 0 <= i < pos ==> key_lt(#[trigger] keys_of(entries)[i], e.0@),
        forall|i: int| pos <= i < entries.len() ==> key_lt(e.0@, #[trigger] keys_of(entries)[i]),
    ensures
        keys_sorted(keys_of(entries.insert(pos, e))),
        keys_of(entries.insert(pos, e)) == keys_of(entries).insert(pos, e.0@),
{
    assert(keys_of(entries.insert(pos, e)) =~= keys_of(entries).insert(pos, e.0@));
    let ks = keys_of(entries.insert(pos, e));
    assert forall|i: int, j: int| 0 <= i < j < ks.len() implies key_lt(#[trigger] ks[i], #[trigger] ks[j]) by {
        let old_ks = keys_of(entries);
        if j < pos {
            assert(key_lt(old_ks[i], old_ks[j]));
        } else if j == pos {
            assert(key_lt(old_ks[i], e.0@));
        } else if i < pos {
            assert(key_lt(old_ks[i], old_ks[j - 1]));
        } else if i == pos {
            assert(key_lt(e.0@, old_ks[j - 1]));
        } else {
            assert(key_lt(old_ks[i - 1], old_ks[j - 1]));
        }
    }
}

/// Replacing the value of an entry keeps the keys.
pub proof fn lemma_update_keys<V>(entries: Seq<(String, V)>, pos: int, e: (String, V))
    requires
        0 <= pos < entries.len(),
        entries[pos].0@ == e.0@,
    ensures
        keys_of(entries.update(pos, e)) == keys_of(entries),
{
    assert(keys_of(entries.update(pos, e)) =~= keys_of(entries));
}

} // verus!
