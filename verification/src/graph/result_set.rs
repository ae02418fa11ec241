use vstd::prelude::*;
use crate::graph::element::{ElemV, GraphElement};
use crate::keyed::{compare_text, find_slot, key_lt, keys_of, keys_sorted, lemma_insert_sorted, lemma_key_lt_irreflexive, lemma_key_lt_transitive, lemma_update_keys, lt_at};

verus! {

/// Entry `i` of a row binds `k`.
pub open spec fn binds_at(es: Seq<(String, GraphElement)>, k: Seq<char>, i: int) -> bool {
    0 <= i < es.len() && es[i].0@ == k
}

/// The bindings of a row as a map from names to values.
pub open spec fn row_map(es: Seq<(String, GraphElement)>) -> Map<Seq<char>, ElemV> {
    Map::new(
        |k: Seq<char>| exists|i: int| #[trigger] binds_at(es, k, i),
        |k: Seq<char>| es[choose|i: int| #[trigger] binds_at(es, k, i)].1@,
    )
}

/// One row of a result: the variables it binds, in increasing order of names, none to `Null`.
#[derive(Debug)]
pub struct Row {
    entries: Vec<(String, GraphElement)>,
}

impl View for Row {
    type V = Map<Seq<char>, ElemV>;

    closed spec fn view(&self) -> Map<Seq<char>, ElemV> {
        row_map(self.entries@)
    }
}

/// Maps that agree on every key are equal.
proof fn lemma_map_agree(a: Map<Seq<char>, ElemV>, b: Map<Seq<char>, ElemV>)
    requires
        forall|k: Seq<char>| #[trigger] a.contains_key(k) == b.contains_key(k) && (a.contains_key(k) ==> a[k] == b[k]),
    ensures
        a == b,
{
    assert forall|k: Seq<char>| a.dom().contains(k) <==> b.dom().contains(k) by {
        assert(a.contains_key(k) == b.contains_key(k));
    }
    assert(a.dom() =~= b.dom());
    assert(a =~= b);
}

/// Sorted keys are distinct.
proof fn lemma_sorted_unique(ks: Seq<Seq<char>>, i: int, j: int)
    requires
        keys_sorted(ks),
        0 <= i < ks.len(),
        0 <= j < ks.len(),
        ks[i] == ks[j],
    ensures
        i == j,
{
    if i < j {
        assert(key_lt(ks[i], ks[j]));
        lemma_key_lt_irreflexive(ks[i]);
    } else if j < i {
        assert(key_lt(ks[j], ks[i]));
        lemma_key_lt_irreflexive(ks[i]);
    }
}

/// In a row with sorted keys, the map gives each entry's value under its key.
proof fn lemma_row_at(es: Seq<(String, GraphElement)>, i: int)
    requires
        keys_sorted(keys_of(es)),
        0 <= i < es.len(),
    ensures
        row_map(es).contains_key(es[i].0@),
        row_map(es)[es[i].0@] == es[i].1@,
{
    let k = es[i].0@;
    assert(binds_at(es, k, i));
    let j = choose|j: int| #[trigger] binds_at(es, k, j);
    assert(keys_of(es)[i] == k && keys_of(es)[j] == k);
    lemma_sorted_unique(keys_of(es), i, j);
}

impl Row {
    /// Names strictly increase and no value is `Null`.
    pub closed spec fn wf(&self) -> bool {
        &&& keys_sorted(keys_of(self.entries@))
        &&& forall|i: int| 0 <= i < self.entries@.len() ==> (#[trigger] self.entries@[i]).1@ != ElemV::Null
    }

    /// No value of a well-formed row is `Null`.
    pub proof fn lemma_no_null(&self)
        requires
            self.wf(),
        ensures
            forall|k: Seq<char>| #[trigger] self@.contains_key(k) ==> self@[k] != ElemV::Null,
    {
        assert forall|k: Seq<char>| #[trigger] self@.contains_key(k) implies self@[k] != ElemV::Null by {
            let i = choose|i: int| #[trigger] binds_at(self.entries@, k, i);
            lemma_row_at(self.entries@, i);
        }
    }

    /// A row that binds nothing.
    pub fn new() -> (r: Row)
        ensures
            r.wf(),
            r@ == Map::<Seq<char>, ElemV>::empty(),
    {
        let r = Row { entries: Vec::new() };
        assert(r@ =~= Map::<Seq<char>, ElemV>::empty());
        r
    }

    /// The number of bindings.
    pub fn len(&self) -> (r: usize)
        requires
            self.wf(),
        ensures
            r == self@.dom().len(),
    {
        proof { self.lemma_keys(); }
        self.entries.len()
    }

    /// The names bound, in increasing order.
    pub closed spec fn names(&self) -> Seq<Seq<char>> {
        keys_of(self.entries@)
    }

    /// The names are those of the map, in increasing order, each once.
    pub proof fn lemma_keys(&self)
        requires
            self.wf(),
        ensures
            keys_sorted(self.names()),
            self.names().len() == self@.dom().len(),
            self.names().to_set() == self@.dom(),
            self.names().no_duplicates(),
            forall|i: int| 0 <= i < self.names().len() ==> #[trigger] self@.contains_key(self.names()[i]),
    {
        let ks = self.names();
        assert forall|i: int| 0 <= i < ks.len() implies #[trigger] self@.contains_key(ks[i]) by {
            lemma_row_at(self.entries@, i);
        }
        assert forall|a: int, b: int| 0 <= a < ks.len() && 0 <= b < ks.len() && a != b implies ks[a] != ks[b] by {
            if ks[a] == ks[b] {
                lemma_sorted_unique(ks, a, b);
            }
        }
        assert(ks.to_set() =~= self@.dom()) by {
            assert forall|k: Seq<char>| self@.dom().contains(k) implies ks.to_set().contains(k) by {
                let i = choose|i: int| #[trigger] binds_at(self.entries@, k, i);
                assert(ks[i] == k);
            }
        }
        ks.unique_seq_to_set();
    }

    /// The name and value of binding `i` (in increasing order of names).
    pub fn entry(&self, i: usize) -> (r: (&String, &GraphElement))
        requires
            self.wf(),
            i < self.names().len(),
        ensures
            r.0@ == self.names()[i as int],
            self@.contains_key(r.0@),
            self@[r.0@] == r.1@,
    {
        proof { lemma_row_at(self.entries@, i as int); }
        (&self.entries[i].0, &self.entries[i].1)
    }

    /// The value bound to `k`.
    pub fn get(&self, k: &str) -> (r: Option<&GraphElement>)
        requires
            self.wf(),
        ensures
            match r {
                Some(v) => self@.contains_key(k@) && self@[k@] == v@,
                None => !self@.contains_key(k@),
            },
    {
        let (pos, found) = find_slot(&self.entries, k);
        if found {
            proof { lemma_row_at(self.entries@, pos as int); }
            Some(&self.entries[pos].1)
        } else {
            proof {
                assert forall|i: int| !binds_at(self.entries@, k@, i) by {
                    if 0 <= i < self.entries@.len() && self.entries@[i].0@ == k@ {
                        assert(keys_of(self.entries@)[i] == k@);
                        if i < pos {
                            lemma_key_lt_irreflexive(k@);
                        } else {
                            lemma_key_lt_irreflexive(k@);
                        }
                    }
                }
            }
            None
        }
    }

    /// Binds `k` to `v`, or unbinds it when `v` is `Null`.
    pub fn set(&mut self, k: &str, v: GraphElement)
        requires
            old(self).wf(),
        ensures
            final(self).wf(),
            final(self)@ == if v@ == ElemV::Null { old(self)@.remove(k@) } else { old(self)@.insert(k@, v@) },
    {
        let (pos, found) = find_slot(&self.entries, k);
        let ghost old_es = self.entries@;
        let is_null = match v { GraphElement::Null => true, _ => false };
        if found {
            if is_null {
                self.entries.remove(pos);
                proof {
                    let es = self.entries@;
                    assert(keys_of(es) =~= keys_of(old_es).remove(pos as int));
                    assert forall|i: int, j: int| 0 <= i < j < keys_of(es).len() implies key_lt(#[trigger] keys_of(es)[i], #[trigger] keys_of(es)[j]) by {
                        let i2 = if i < pos { i } else { i + 1 };
                        let j2 = if j < pos { j } else { j + 1 };
                        assert(key_lt(keys_of(old_es)[i2], keys_of(old_es)[j2]));
                    }
                    assert forall|i: int| 0 <= i < es.len() implies (#[trigger] es[i]).1@ != ElemV::Null by {
                        let i2 = if i < pos { i } else { i + 1 };
                        assert(es[i] == old_es[i2]);
                    }
                    assert forall|k2: Seq<char>| #[trigger] row_map(es).contains_key(k2) == old(self)@.remove(k@).contains_key(k2) &&
                        (row_map(es).contains_key(k2) ==> row_map(es)[k2] == old(self)@.remove(k@)[k2]) by {
                        if row_map(es).contains_key(k2) {
                            let i = choose|i: int| #[trigger] binds_at(es, k2, i);
                            let i2 = if i < pos { i } else { i + 1 };
                            assert(es[i] == old_es[i2]);
                            lemma_row_at(es, i);
                            lemma_row_at(old_es, i2);
                            if k2 == k@ {
                                lemma_sorted_unique(keys_of(old_es), i2, pos as int);
                            }
                        }
                        if old(self)@.remove(k@).contains_key(k2) {
                            let i2 = choose|i: int| #[trigger] binds_at(old_es, k2, i);
                            assert(i2 != pos);
                            let i = if i2 < pos { i2 } else { i2 - 1 };
                            assert(es[i] == old_es[i2]);
                            assert(binds_at(es, k2, i));
                        }
                    }
                    lemma_map_agree(row_map(es), old(self)@.remove(k@));
                }
            } else {
                let ghost vv = v@;
                self.entries.set(pos, (crate::text::own(k), v));
                proof {
                    let es = self.entries@;
                    lemma_update_keys(old_es, pos as int, es[pos as int]);
                    assert forall|i: int| 0 <= i < es.len() implies (#[trigger] es[i]).1@ != ElemV::Null by {
                        if i != pos { assert(es[i] == old_es[i]); }
                    }
                    assert forall|k2: Seq<char>| #[trigger] row_map(es).contains_key(k2) == old(self)@.insert(k@, vv).contains_key(k2) &&
                        (row_map(es).contains_key(k2) ==> row_map(es)[k2] == old(self)@.insert(k@, vv)[k2]) by {
                        if row_map(es).contains_key(k2) {
                            let i = choose|i: int| #[trigger] binds_at(es, k2, i);
                            lemma_row_at(es, i);
                            if i != pos {
                                assert(es[i] == old_es[i]);
                                lemma_row_at(old_es, i);
                                if k2 == k@ {
                                    lemma_sorted_unique(keys_of(es), i, pos as int);
                                }
                            }
                        }
                        if old(self)@.insert(k@, vv).contains_key(k2) {
                            if k2 == k@ {
                                assert(binds_at(es, k2, pos as int));
                            } else {
                                let i = choose|i: int| #[trigger] binds_at(old_es, k2, i);
                                assert(es[i] == old_es[i]);
                                assert(binds_at(es, k2, i));
                            }
                        }
                    }
                    lemma_map_agree(row_map(es), old(self)@.insert(k@, vv));
                }
            }
        } else {
            if is_null {
                proof {
                    assert forall|i: int| !binds_at(old_es, k@, i) by {
                        if 0 <= i < old_es.len() && old_es[i].0@ == k@ {
                            assert(keys_of(old_es)[i] == k@);
                            lemma_key_lt_irreflexive(k@);
                        }
                    }
                    assert(old(self)@.remove(k@) =~= old(self)@);
                }
            } else {
                let ghost vv = v@;
                let e = (crate::text::own(k), v);
                proof { lemma_insert_sorted(old_es, pos as int, e); }
                self.entries.insert(pos, e);
                proof {
                    let es = self.entries@;
                    assert forall|i: int| 0 <= i < es.len() implies (#[trigger] es[i]).1@ != ElemV::Null by {
                        if i < pos { assert(es[i] == old_es[i]); } else if i > pos { assert(es[i] == old_es[i - 1]); }
                    }
                    assert forall|k2: Seq<char>| #[trigger] row_map(es).contains_key(k2) == old(self)@.insert(k@, vv).contains_key(k2) &&
                        (row_map(es).contains_key(k2) ==> row_map(es)[k2] == old(self)@.insert(k@, vv)[k2]) by {
                        if row_map(es).contains_key(k2) {
                            let i = choose|i: int| #[trigger] binds_at(es, k2, i);
                            lemma_row_at(es, i);
                            if i != pos {
                                let i2 = if i < pos { i } else { i - 1 };
                                assert(es[i] == old_es[i2]);
                                lemma_row_at(old_es, i2);
                                if k2 == k@ {
                                    lemma_sorted_unique(keys_of(es), i, pos as int);
                                }
                            }
                        }
                        if old(self)@.insert(k@, vv).contains_key(k2) {
                            if k2 == k@ {
                                assert(binds_at(es, k2, pos as int));
                            } else {
                                let i2 = choose|i: int| #[trigger] binds_at(old_es, k2, i);
                                let i = if i2 < pos { i2 } else { i2 + 1 };
                                assert(es[i] == old_es[i2]);
                                assert(binds_at(es, k2, i));
                            }
                        }
                    }
                    lemma_map_agree(row_map(es), old(self)@.insert(k@, vv));
                }
            }
        }
    }

    /// A copy of the row.
    pub fn copy(&self) -> (r: Row)
        requires
            self.wf(),
        ensures
            r.wf(),
            r@ == self@,
            r.names() == self.names(),
    {
        let mut es: Vec<(String, GraphElement)> = Vec::new();
        let mut i: usize = 0;
        while i < self.entries.len()
            invariant
                self.wf(),
                i <= self.entries@.len(),
                es@.len() == i,
                forall|j: int| 0 <= j < i ==> (#[trigger] es@[j]).0@ == self.entries@[j].0@ && es@[j].1@ == self.entries@[j].1@,
            decreases self.entries@.len() - i,
        {
            es.push((crate::text::copy_string(&self.entries[i].0), self.entries[i].1.copy()));
            i = i + 1;
        }
        let r = Row { entries: es };
        proof {
            assert(keys_of(es@) =~= keys_of(self.entries@));
            assert forall|j: int| 0 <= j < es@.len() implies (#[trigger] es@[j]).1@ != ElemV::Null by {
                assert(self.entries@[j].1@ != ElemV::Null);
            }
            assert forall|k: Seq<char>| #[trigger] r@.contains_key(k) == self@.contains_key(k) && (r@.contains_key(k) ==> r@[k] == self@[k]) by {
                if r@.contains_key(k) {
                    let j = choose|j: int| #[trigger] binds_at(es@, k, j);
                    lemma_row_at(es@, j);
                    lemma_row_at(self.entries@, j);
                }
                if self@.contains_key(k) {
                    let j = choose|j: int| #[trigger] binds_at(self.entries@, k, j);
                    assert(binds_at(es@, k, j));
                }
            }
            lemma_map_agree(r@, self@);
        }
        r
    }
}

/// The row after binding each pair in order; a `Null` value unbinds its name.
pub open spec fn apply_bindings(m: Map<Seq<char>, ElemV>, bs: Seq<(Seq<char>, ElemV)>) -> Map<Seq<char>, ElemV>
    decreases bs.len(),
{
    if bs.len() == 0 {
        m
    } else {
        let m2 = apply_bindings(m, bs.drop_last());
        let (k, v) = bs.last();
        if v == ElemV::Null { m2.remove(k) } else { m2.insert(k, v) }
    }
}

pub open spec fn bindings_view(bs: Seq<(String, GraphElement)>) -> Seq<(Seq<char>, ElemV)> {
    bs.map_values(|b: (String, GraphElement)| (b.0@, b.1@))
}

/// The set of the first `i + 1` items is that of the first `i` with item `i` added.
pub proof fn lemma_prefix_set<T>(s: Seq<T>, i: int)
    requires
        0 <= i < s.len(),
    ensures
        s.subrange(0, i + 1).to_set() == s.subrange(0, i).to_set().insert(s[i]),
{
    let a = s.subrange(0, i + 1);
    let b = s.subrange(0, i);
    assert forall|x: T| a.to_set().contains(x) <==> b.to_set().insert(s[i]).contains(x) by {
        if a.contains(x) {
            let q = choose|q: int| 0 <= q < a.len() && a[q] == x;
            if q < i { assert(b[q] == x); }
        }
        if b.contains(x) {
            let q = choose|q: int| 0 <= q < b.len() && b[q] == x;
            assert(a[q] == x);
        }
        if x == s[i] {
            assert(a[i] == x);
        }
    }
    assert(a.to_set() =~= b.to_set().insert(s[i]));
}

/// Applying bindings binds only names that were bound or that the bindings name.
pub proof fn lemma_apply_bindings_dom(m: Map<Seq<char>, ElemV>, bs: Seq<(Seq<char>, ElemV)>)
    ensures
        apply_bindings(m, bs).dom().subset_of(m.dom().union(bs.map_values(|b: (Seq<char>, ElemV)| b.0).to_set())),
    decreases bs.len(),
{
    if bs.len() > 0 {
        lemma_apply_bindings_dom(m, bs.drop_last());
        let ks = bs.map_values(|b: (Seq<char>, ElemV)| b.0);
        let ks0 = bs.drop_last().map_values(|b: (Seq<char>, ElemV)| b.0);
        assert(ks =~= ks0.push(bs.last().0));
        assert forall|x: Seq<char>| ks0.to_set().contains(x) implies ks.to_set().contains(x) by {
            let q = choose|q: int| 0 <= q < ks0.len() && ks0[q] == x;
            assert(ks[q] == x);
        }
        assert(ks[ks.len() - 1] == bs.last().0);
    }
}

/// The mathematical form of a result: the names of its columns, in increasing order, and its rows.
pub struct ResultV {
    pub columns: Seq<Seq<char>>,
    pub rows: Seq<Map<Seq<char>, ElemV>>,
}

/// The rows a query step works on, with the names of every column ever filled in them.
#[derive(Debug)]
pub struct ResultSet {
    columns: Vec<(String, ())>,
    table: Vec<Row>,
}

impl View for ResultSet {
    type V = ResultV;

    closed spec fn view(&self) -> ResultV {
        ResultV { columns: keys_of(self.columns@), rows: self.table@.map_values(|r: Row| r@) }
    }
}

impl ResultSet {
    /// Column names strictly increase, every row is well formed, and every name a row binds is a column.
    pub closed spec fn wf(&self) -> bool {
        &&& keys_sorted(keys_of(self.columns@))
        &&& forall|i: int| 0 <= i < self.table@.len() ==> (#[trigger] self.table@[i]).wf()
        &&& forall|i: int, k: Seq<char>| 0 <= i < self.table@.len() && #[trigger] self.table@[i]@.contains_key(k) ==>
            keys_of(self.columns@).contains(k)
    }

    /// Facts every well-formed result set has.
    pub proof fn lemma_wf(&self)
        requires
            self.wf(),
        ensures
            keys_sorted(self@.columns),
            self@.columns.no_duplicates(),
            forall|i: int, k: Seq<char>| 0 <= i < self@.rows.len() && #[trigger] self@.rows[i].contains_key(k) ==>
                self@.columns.contains(k) && self@.rows[i][k] != ElemV::Null,
    {
        let ks = self@.columns;
        assert forall|a: int, b: int| 0 <= a < ks.len() && 0 <= b < ks.len() && a != b implies ks[a] != ks[b] by {
            if ks[a] == ks[b] {
                lemma_sorted_unique(ks, a, b);
            }
        }
        assert forall|i: int, k: Seq<char>| 0 <= i < self@.rows.len() && #[trigger] self@.rows[i].contains_key(k) implies
            self@.columns.contains(k) && self@.rows[i][k] != ElemV::Null by {
            assert(self@.rows[i] == self.table@[i]@);
            assert(self.table@[i].wf());
            self.table@[i].lemma_no_null();
        }
    }

    /// An empty result with no columns.
    pub fn new() -> (r: ResultSet)
        ensures
            r.wf(),
            r@.columns.len() == 0,
            r@.rows.len() == 0,
    {
        let r = ResultSet { columns: Vec::new(), table: Vec::new() };
        assert(r@.rows =~= Seq::<Map<Seq<char>, ElemV>>::empty());
        r
    }

    /// The number of rows.
    pub fn rows(&self) -> (r: usize)
        ensures
            r == self@.rows.len(),
    {
        self.table.len()
    }

    /// There are no rows.
    pub fn is_empty(&self) -> (r: bool)
        ensures
            r == (self@.rows.len() == 0),
    {
        self.table.len() == 0
    }

    /// Row `i`.
    pub fn row(&self, i: usize) -> (r: &Row)
        requires
            self.wf(),
            i < self@.rows.len(),
        ensures
            r.wf(),
            r@ == self@.rows[i as int],
    {
        &self.table[i]
    }

    /// The value of column `col` in row `row_idx`, unless the row leaves it empty.
    pub fn get(&self, row_idx: usize, col: &str) -> (r: Option<&GraphElement>)
        requires
            self.wf(),
            row_idx < self@.rows.len(),
        ensures
            match r {
                Some(v) => self@.rows[row_idx as int].contains_key(col@) && self@.rows[row_idx as int][col@] == v@,
                None => !self@.rows[row_idx as int].contains_key(col@),
            },
    {
        self.table[row_idx].get(col)
    }

    /// A copy of row `idx`.
    pub fn get_row(&self, idx: usize) -> (r: Row)
        requires
            self.wf(),
            idx < self@.rows.len(),
        ensures
            r.wf(),
            r@ == self@.rows[idx as int],
    {
        self.table[idx].copy()
    }

    /// The names of the columns, in increasing order.
    pub fn column_names(&self) -> (r: Vec<String>)
        requires
            self.wf(),
        ensures
            r@.map_values(|s: String| s@) == self@.columns,
    {
        let mut r: Vec<String> = Vec::new();
        let mut i: usize = 0;
        while i < self.columns.len()
            invariant
                i <= self.columns@.len(),
                r@.len() == i,
                forall|j: int| 0 <= j < i ==> (#[trigger] r@[j])@ == self.columns@[j].0@,
            decreases self.columns@.len() - i,
        {
            r.push(crate::text::copy_string(&self.columns[i].0));
            i = i + 1;
        }
        assert(r@.map_values(|s: String| s@) =~= keys_of(self.columns@));
        r
    }

    /// Adds `name` to the columns unless it is one.
    fn add_column(&mut self, name: &str)
        requires
            old(self).wf(),
        ensures
            final(self).wf(),
            final(self)@.rows == old(self)@.rows,
            final(self)@.columns.to_set() == old(self)@.columns.to_set().insert(name@),
    {
        let (pos, found) = find_slot(&self.columns, name);
        if !found {
            let ghost old_cols = self.columns@;
            let e = (crate::text::own(name), ());
            proof { lemma_insert_sorted(old_cols, pos as int, e); }
            self.columns.insert(pos, e);
            proof {
                let ks = keys_of(self.columns@);
                assert(ks =~= keys_of(old_cols).insert(pos as int, name@));
                assert forall|x: Seq<char>| ks.contains(x) <==> keys_of(old_cols).contains(x) || x == name@ by {
                    if ks.contains(x) {
                        let q = choose|q: int| 0 <= q < ks.len() && ks[q] == x;
                        if q < pos { assert(keys_of(old_cols)[q] == x); }
                        else if q > pos { assert(keys_of(old_cols)[q - 1] == x); }
                    }
                    if keys_of(old_cols).contains(x) {
                        let q = choose|q: int| 0 <= q < keys_of(old_cols).len() && keys_of(old_cols)[q] == x;
                        if q < pos { assert(ks[q] == x); } else { assert(ks[q + 1] == x); }
                    }
                    if x == name@ {
                        assert(ks[pos as int] == x);
                    }
                }
                assert(ks.to_set() =~= keys_of(old_cols).to_set().insert(name@));
                assert forall|i: int, k: Seq<char>| 0 <= i < self.table@.len() && #[trigger] self.table@[i]@.contains_key(k) implies
                    keys_of(self.columns@).contains(k) by {
                    assert(keys_of(old_cols).contains(k));
                }
            }
        } else {
            proof {
                assert(keys_of(self.columns@)[pos as int] == name@);
                assert(self@.columns.to_set() =~= old(self)@.columns.to_set().insert(name@));
            }
        }
        assert(self@.rows =~= old(self)@.rows);
    }

    /// Adds every name the row binds to the columns.
    fn add_columns_of(&mut self, row: &Row)
        requires
            old(self).wf(),
            row.wf(),
        ensures
            final(self).wf(),
            final(self)@.rows == old(self)@.rows,
            final(self)@.columns.to_set() == old(self)@.columns.to_set().union(row@.dom()),
    {
        proof { row.lemma_keys(); }
        let n = row.len();
        let mut i: usize = 0;
        while i < n
            invariant
                self.wf(),
                row.wf(),
                n == row.names().len(),
                i <= n,
                self@.rows == old(self)@.rows,
                self@.columns.to_set() == old(self)@.columns.to_set().union(row.names().subrange(0, i as int).to_set()),
            decreases n - i,
        {
            let (k, _) = row.entry(i);
            self.add_column(k.as_str());
            proof {
                lemma_prefix_set(row.names(), i as int);
                assert(self@.columns.to_set() =~= old(self)@.columns.to_set().union(row.names().subrange(0, i as int + 1).to_set()));
            }
            i = i + 1;
        }
        proof {
            row.lemma_keys();
            assert(row.names().subrange(0, n as int) =~= row.names());
        }
    }

    /// Appends a row and adds its names to the columns.
    fn append(&mut self, row: Row)
        requires
            old(self).wf(),
            row.wf(),
        ensures
            final(self).wf(),
            final(self)@.rows == old(self)@.rows.push(row@),
            final(self)@.columns.to_set() == old(self)@.columns.to_set().union(row@.dom()),
    {
        self.add_columns_of(&row);
        let ghost mid = self@;
        self.table.push(row);
        proof {
            assert(self@.rows =~= mid.rows.push(row@));
            assert forall|i: int, k: Seq<char>| 0 <= i < self.table@.len() && #[trigger] self.table@[i]@.contains_key(k) implies
                keys_of(self.columns@).contains(k) by {
                if i == self.table@.len() - 1 {
                    assert(self@.columns.to_set().contains(k));
                }
            }
        }
    }

    /// Appends a copy of `env`.
    pub fn push_row(&mut self, env: &Row)
        requires
            old(self).wf(),
            env.wf(),
        ensures
            final(self).wf(),
            final(self)@.rows == old(self)@.rows.push(env@),
            final(self)@.columns.to_set() == old(self)@.columns.to_set().union(env@.dom()),
    {
        self.append(env.copy());
    }

    /// Appends row `row_idx` of `other` with the bindings applied to it in order (a `Null` value
    /// unbinds its name); every name bound is added to the columns, as are the names of the
    /// bindings.
    pub fn push_row_from(&mut self, other: &ResultSet, row_idx: usize, bindings: &Vec<(String, GraphElement)>)
        requires
            old(self).wf(),
            other.wf(),
            row_idx < other@.rows.len(),
        ensures
            final(self).wf(),
            final(self)@.rows == old(self)@.rows.push(apply_bindings(other@.rows[row_idx as int], bindings_view(bindings@))),
            final(self)@.columns.to_set() == old(self)@.columns.to_set().union(other@.rows[row_idx as int].dom()).union(
                bindings_view(bindings@).map_values(|b: (Seq<char>, ElemV)| b.0).to_set()),
    {
        let mut row = other.table[row_idx].copy();
        let mut i: usize = 0;
        while i < bindings.len()
            invariant
                self.wf(),
                row.wf(),
                i <= bindings@.len(),
                row@ == apply_bindings(other@.rows[row_idx as int], bindings_view(bindings@).subrange(0, i as int)),
                self@.rows == old(self)@.rows,
                self@.columns.to_set() == old(self)@.columns.to_set().union(
                    bindings_view(bindings@).subrange(0, i as int).map_values(|b: (Seq<char>, ElemV)| b.0).to_set()),
            decreases bindings@.len() - i,
        {
            let v = bindings[i].1.copy();
            row.set(bindings[i].0.as_str(), v);
            self.add_column(bindings[i].0.as_str());
            proof {
                let bv = bindings_view(bindings@);
                assert(bv.subrange(0, i as int + 1).drop_last() =~= bv.subrange(0, i as int));
                assert(bv.subrange(0, i as int + 1).map_values(|b: (Seq<char>, ElemV)| b.0) =~=
                    bv.subrange(0, i as int).map_values(|b: (Seq<char>, ElemV)| b.0).push(bindings@[i as int].0@));
                let ks = bv.map_values(|b: (Seq<char>, ElemV)| b.0);
                lemma_prefix_set(ks, i as int);
                assert(bv.subrange(0, i as int + 1).map_values(|b: (Seq<char>, ElemV)| b.0) =~= ks.subrange(0, i as int + 1));
                assert(bv.subrange(0, i as int).map_values(|b: (Seq<char>, ElemV)| b.0) =~= ks.subrange(0, i as int));
                assert(self@.columns.to_set() =~= old(self)@.columns.to_set().union(
                    bv.subrange(0, i as int + 1).map_values(|b: (Seq<char>, ElemV)| b.0).to_set()));
            }
            i = i + 1;
        }
        proof {
            assert(bindings_view(bindings@).subrange(0, i as int) =~= bindings_view(bindings@));
        }
        let ghost mid = self@;
        let ghost base = other@.rows[row_idx as int];
        self.add_columns_of(&other.table[row_idx]);
        let ghost mid2 = self@;
        proof {
            let bks = bindings_view(bindings@).map_values(|b: (Seq<char>, ElemV)| b.0).to_set();
            lemma_apply_bindings_dom(base, bindings_view(bindings@));
            assert(row@.dom().subset_of(base.dom().union(bks)));
        }
        self.append(row);
        proof {
            let bks = bindings_view(bindings@).map_values(|b: (Seq<char>, ElemV)| b.0).to_set();
            assert(self@.columns.to_set() =~= old(self)@.columns.to_set().union(base.dom()).union(bks));
        }
    }

    /// Appends the bindings of row `l_idx` of `left` overridden by those of row `r_idx` of
    /// `right`; every name bound is added to the columns.
    pub fn push_merged_row(&mut self, left: &ResultSet, l_idx: usize, right: &ResultSet, r_idx: usize)
        requires
            old(self).wf(),
            left.wf(),
            right.wf(),
            l_idx < left@.rows.len(),
            r_idx < right@.rows.len(),
        ensures
            final(self).wf(),
            final(self)@.rows == old(self)@.rows.push(left@.rows[l_idx as int].union_prefer_right(right@.rows[r_idx as int])),
            final(self)@.columns.to_set() == old(self)@.columns.to_set().union(left@.rows[l_idx as int].dom()).union(right@.rows[r_idx as int].dom()),
    {
        let mut row = left.table[l_idx].copy();
        let rr = &right.table[r_idx];
        proof { rr.lemma_keys(); rr.lemma_no_null(); }
        let n = rr.len();
        let mut i: usize = 0;
        while i < n
            invariant
                row.wf(),
                rr.wf(),
                rr@ == right@.rows[r_idx as int],
                n == rr.names().len(),
                keys_sorted(rr.names()),
                rr.names().no_duplicates(),
                forall|j: int| 0 <= j < rr.names().len() ==> #[trigger] rr@.contains_key(rr.names()[j]),
                forall|k: Seq<char>| #[trigger] rr@.contains_key(k) ==> rr@[k] != ElemV::Null,
                rr.names().to_set() == rr@.dom(),
                i <= n,
                row@ == left@.rows[l_idx as int].union_prefer_right(rr@.restrict(rr.names().subrange(0, i as int).to_set())),
            decreases n - i,
        {
            let (k, v) = rr.entry(i);
            let vc = v.copy();
            row.set(k.as_str(), vc);
            proof {
                let prev = rr.names().subrange(0, i as int).to_set();
                lemma_prefix_set(rr.names(), i as int);
                assert(row@ =~= left@.rows[l_idx as int].union_prefer_right(rr@.restrict(prev.insert(k@))));
            }
            i = i + 1;
        }
        proof {
            assert(rr.names().subrange(0, n as int) =~= rr.names());
            assert(rr@.restrict(rr@.dom()) =~= rr@);
        }
        self.add_columns_of(&left.table[l_idx]);
        self.append(row);
        proof {
            let lm = left@.rows[l_idx as int];
            let rm = right@.rows[r_idx as int];
            assert(lm.union_prefer_right(rm).dom() =~= lm.dom().union(rm.dom()));
            assert(self@.columns.to_set() =~= old(self)@.columns.to_set().union(lm.dom()).union(rm.dom()));
        }
    }

    /// Keeps the first `len` rows.
    pub fn truncate(&mut self, len: usize)
        requires
            old(self).wf(),
        ensures
            final(self).wf(),
            final(self)@.columns == old(self)@.columns,
            final(self)@.rows == if len >= old(self)@.rows.len() { old(self)@.rows } else { old(self)@.rows.subrange(0, len as int) },
    {
        if len < self.table.len() {
            self.table.truncate(len);
            assert(self@.rows =~= old(self)@.rows.subrange(0, len as int));
        }
    }

    /// Drops the first `amount` rows.
    pub fn skip(&mut self, amount: usize)
        requires
            old(self).wf(),
        ensures
            final(self).wf(),
            final(self)@.columns == old(self)@.columns,
            final(self)@.rows == if amount >= old(self)@.rows.len() { Seq::empty() } else { old(self)@.rows.subrange(amount as int, old(self)@.rows.len() as int) },
    {
        if amount >= self.table.len() {
            self.table = Vec::new();
            assert(self@.rows =~= Seq::<Map<Seq<char>, ElemV>>::empty());
        } else {
            let mut rest: Vec<Row> = Vec::new();
            let mut i = amount;
            while i < self.table.len()
                invariant
                    self.wf(),
                    amount <= i <= self.table@.len(),
                    rest@.len() == i - amount,
                    forall|j: int| 0 <= j < rest@.len() ==> (#[trigger] rest@[j]).wf() && rest@[j]@ == self@.rows[amount + j],
                decreases self.table@.len() - i,
            {
                rest.push(self.table[i].copy());
                i = i + 1;
            }
            let ghost before = self@;
            self.table = rest;
            proof {
                assert(self@.rows =~= before.rows.subrange(amount as int, before.rows.len() as int));
                assert forall|i: int, k: Seq<char>| 0 <= i < self.table@.len() && #[trigger] self.table@[i]@.contains_key(k) implies
                    keys_of(self.columns@).contains(k) by {
                    assert(self.table@[i]@ == old(self).table@[amount + i]@);
                    assert(old(self).table@[amount + i]@.contains_key(k));
                }
            }
        }
    }

    /// Drops every row; the columns stay.
    pub fn clear(&mut self)
        requires
            old(self).wf(),
        ensures
            final(self).wf(),
            final(self)@.columns == old(self)@.columns,
            final(self)@.rows.len() == 0,
    {
        self.table = Vec::new();
        assert(self@.rows =~= Seq::<Map<Seq<char>, ElemV>>::empty());
    }

    /// Binds `col` to `v` in row `row_idx` (unbinds it when `v` is `Null`) and adds it to the columns.
    pub fn set_value(&mut self, row_idx: usize, col: &str, v: GraphElement)
        requires
            old(self).wf(),
            row_idx < old(self)@.rows.len(),
        ensures
            final(self).wf(),
            final(self)@.rows == old(self)@.rows.update(row_idx as int,
                if v@ == ElemV::Null { old(self)@.rows[row_idx as int].remove(col@) } else { old(self)@.rows[row_idx as int].insert(col@, v@) }),
            final(self)@.columns.to_set() == old(self)@.columns.to_set().insert(col@),
    {
        self.add_column(col);
        let ghost mid = self@;
        let ghost mid_tab = self.table@;
        proof { assert(self.wf()); }
        self.table[row_idx].set(col, v);
        proof {
            assert(self@.rows =~= mid.rows.update(row_idx as int,
                if v@ == ElemV::Null { mid.rows[row_idx as int].remove(col@) } else { mid.rows[row_idx as int].insert(col@, v@) }));
            assert forall|i: int, k: Seq<char>| 0 <= i < self.table@.len() && #[trigger] self.table@[i]@.contains_key(k) implies
                keys_of(self.columns@).contains(k) by {
                if i != row_idx {
                    assert(self.table@[i] == mid_tab[i]);
                    assert(mid_tab[i]@.contains_key(k));
                } else {
                    if k != col@ {
                        assert(mid_tab[i]@.contains_key(k));
                    } else {
                        assert(self@.columns.to_set().contains(k));
                    }
                }
            }
        }
    }
}

} // verus!
