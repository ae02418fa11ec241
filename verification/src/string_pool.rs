use vstd::prelude::*;
use vstd::hash_map::StringHashMap;
use vstd::string::StringExecFns;

verus! {

/// Interns strings: every distinct string gets the dense id it was first seen with.
pub struct StringPool {
    strings: Vec<String>,
    map: StringHashMap<usize>,
}

impl View for StringPool {
    type V = Seq<Seq<char>>;

    closed spec fn view(&self) -> Seq<Seq<char>> {
        self.strings@.map_values(|s: String| s@)
    }
}

/// `s` occurs in `pool` at position `i`.
pub open spec fn interned_at(pool: Seq<Seq<char>>, s: Seq<char>, i: int) -> bool {
    0 <= i < pool.len() && pool[i] == s
}

/// The position of `s` in `pool` (meaningful when `pool` holds it once).
pub open spec fn position_of(pool: Seq<Seq<char>>, s: Seq<char>) -> int {
    choose|i: int| interned_at(pool, s, i)
}

/// The pool and id that interning `s` into `pool` gives.
pub open spec fn intern(pool: Seq<Seq<char>>, s: Seq<char>) -> (Seq<Seq<char>>, int) {
    if pool.contains(s) {
        (pool, position_of(pool, s))
    } else {
        (pool.push(s), pool.len() as int)
    }
}

/// What resolving `id` in `pool` gives.
pub open spec fn resolved(pool: Seq<Seq<char>>, id: int) -> Option<Seq<char>> {
    if 0 <= id < pool.len() {
        Some(pool[id])
    } else {
        None
    }
}

impl StringPool {
    /// The ids and the strings agree in both directions and no string occurs twice.
    pub closed spec fn wf(&self) -> bool {
        &&& forall|i: int| 0 <= i < self.strings@.len() ==>
            #[trigger] self.map@.contains_key(self.strings@[i]@) && self.map@[self.strings@[i]@] == i
        &&& forall|k: Seq<char>| #[trigger] self.map@.contains_key(k) ==>
            self.map@[k] < self.strings@.len() && self.strings@[self.map@[k] as int]@ == k
    }

    /// No string occurs twice in a well-formed pool.
    pub proof fn lemma_unique(&self)
        requires
            self.wf(),
        ensures
            self@.no_duplicates(),
    {
        assert forall|i: int, j: int| 0 <= i < self@.len() && 0 <= j < self@.len() && i != j
            implies self@[i] != self@[j] by {
            assert(self.map@.contains_key(self.strings@[i]@));
            assert(self.map@.contains_key(self.strings@[j]@));
        }
    }

    pub fn new() -> (r: Self)
        ensures
            r.wf(),
            r@ == Seq::<Seq<char>>::empty(),
    {
        StringPool { strings: Vec::new(), map: StringHashMap::new() }
    }

    /// The id of `s`, adding it at the end when it is new.
    pub fn get_or_intern(&mut self, s: &str) -> (id: usize)
        requires
            old(self).wf(),
        ensures
            final(self).wf(),
            (final(self)@, id as int) == intern(old(self)@, s@),
    {
        proof {
            self.lemma_unique();
        }
        match self.map.get(s) {
            Some(id) => {
                let id = *id;
                proof {
                    assert(interned_at(self@, s@, id as int));
                    let j = position_of(self@, s@);
                    assert(interned_at(self@, s@, j));
                }
                id
            },
            None => {
                proof {
                    if self@.contains(s@) {
                        let i = choose|i: int| 0 <= i < self@.len() && self@[i] == s@;
                        assert(self.map@.contains_key(self.strings@[i]@));
                    }
                }
                let id = self.strings.len();
                let owned = String::from_str(s);
                let key = String::from_str(s);
                self.strings.push(owned);
                self.map.insert(key, id);
                assert(self@ =~= old(self)@.push(s@));
                proof {
                    let m = self.map@;
                    assert forall|i: int| 0 <= i < self.strings@.len() implies
                        #[trigger] m.contains_key(self.strings@[i]@) && m[self.strings@[i]@] == i by {
                        if i < id {
                            assert(old(self).map@.contains_key(old(self).strings@[i]@));
                            assert(old(self).strings@[i]@ == old(self)@[i]);
                        }
                    }
                }
                id
            },
        }
    }

    /// The id of `s` if it was interned.
    pub fn get(&self, s: &str) -> (r: Option<usize>)
        requires
            self.wf(),
        ensures
            r matches Some(id) ==> interned_at(self@, s@, id as int),
            r is None <==> !self@.contains(s@),
    {
        match self.map.get(s) {
            Some(id) => {
                assert(self@[*id as int] == s@);
                Some(*id)
            },
            None => {
                proof {
                    if self@.contains(s@) {
                        let i = choose|i: int| 0 <= i < self@.len() && self@[i] == s@;
                        assert(self.map@.contains_key(self.strings@[i]@));
                    }
                }
                None
            },
        }
    }

    /// The string with id `id`, if there is one.
    pub fn resolve(&self, id: usize) -> (r: Option<&str>)
        ensures
            match r {
                Some(t) => resolved(self@, id as int) == Some(t@),
                None => resolved(self@, id as int) is None,
            },
    {
        if id < self.strings.len() {
            Some(self.strings[id].as_str())
        } else {
            None
        }
    }

    /// The number of interned strings.
    pub fn len(&self) -> (r: usize)
        ensures
            r == self@.len(),
    {
        self.strings.len()
    }
}

/// Interning a string and then resolving the id it got gives the string back.
pub proof fn law_resolve_after_intern(pool: Seq<Seq<char>>, s: Seq<char>)
    requires
        pool.no_duplicates(),
    ensures
        resolved(intern(pool, s).0, intern(pool, s).1) == Some(s),
{
    if pool.contains(s) {
        let i = choose|i: int| 0 <= i < pool.len() && pool[i] == s;
        assert(interned_at(pool, s, i));
    }
}

/// Interning the same string twice gives the same id and leaves the pool as the first call left it.
pub proof fn law_intern_idempotent(pool: Seq<Seq<char>>, s: Seq<char>)
    requires
        pool.no_duplicates(),
    ensures
        intern(intern(pool, s).0, s) == intern(pool, s),
{
    let p1 = intern(pool, s).0;
    if pool.contains(s) {
        let i = choose|i: int| 0 <= i < pool.len() && pool[i] == s;
        assert(interned_at(pool, s, i));
    } else {
        assert(p1[pool.len() as int] == s);
        assert(p1.contains(s));
        let j = position_of(p1, s);
        assert(interned_at(p1, s, pool.len() as int));
        if j != pool.len() {
            assert(interned_at(p1, s, j));
            assert(pool[j] == s);
        }
    }
}

/// Two different strings never share an id.
pub proof fn law_distinct_ids(pool: Seq<Seq<char>>, s: Seq<char>, t: Seq<char>)
    requires
        pool.no_duplicates(),
        s != t,
    ensures
        intern(intern(pool, s).0, t).1 != intern(pool, s).1,
{
    let (p1, i1) = intern(pool, s);
    law_resolve_after_intern(pool, s);
    if !pool.contains(s) {
        assert forall|a: int, b: int| 0 <= a < p1.len() && 0 <= b < p1.len() && a != b implies p1[a] != p1[b] by {
            if a < pool.len() && b < pool.len() {
            } else if a == pool.len() {
                assert(!pool.contains(p1[b]) || p1[b] != s);
            } else {
                assert(!pool.contains(p1[a]) || p1[a] != s);
            }
        }
    }
    law_resolve_after_intern(p1, t);
}

} // verus!
