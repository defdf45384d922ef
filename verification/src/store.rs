//! Provenance store: the durable record of which (game, placed-name) pairs
//! have been satisfied by which digest, across runs. Also the parent/clone
//! name map of hierarchical catalogs.

use vstd::prelude::*;
use crate::bytes::{bytes_eq, copy_bytes};

verus! {

/// Ghost model of one provenance row: (game, placed-name) pairs.
pub open spec fn prow_model(row: Seq<(Vec<u8>, Vec<u8>)>) -> Seq<(Seq<u8>, Seq<u8>)> {
    row.map_values(|p: (Vec<u8>, Vec<u8>)| (p.0@, p.1@))
}

/// The row records at least two distinct games.
pub open spec fn two_games(row: Seq<(Seq<u8>, Seq<u8>)>) -> bool {
    exists|k1: int, k2: int|
        0 <= k1 < row.len() && 0 <= k2 < row.len() && row[k1].0 != row[k2].0
}

/// Some pair of the row names game `g`.
pub open spec fn row_has_game(row: Seq<(Seq<u8>, Seq<u8>)>, g: Seq<u8>) -> bool {
    exists|k: int| 0 <= k < row.len() && row[k].0 == g
}

/// Persistent map from digest to the (game, placed-name) pairs it satisfied.
/// Append-only within a run.
pub struct Store {
    pub hashes: Vec<Vec<u8>>,
    pub rows: Vec<Vec<(Vec<u8>, Vec<u8>)>>,
}

impl Store {
    pub open spec fn wf(self) -> bool {
        &&& self.hashes@.len() == self.rows@.len()
        &&& forall|i: int, j: int|
            0 <= i < j < self.hashes@.len() ==> self.hashes@[i]@ != self.hashes@[j]@
    }

    pub open spec fn contains_hash(self, h: Seq<u8>) -> bool {
        exists|i: int| 0 <= i < self.hashes@.len() && self.hashes@[i]@ == h
    }

    pub open spec fn index_of(self, h: Seq<u8>) -> int {
        choose|i: int| 0 <= i < self.hashes@.len() && self.hashes@[i]@ == h
    }

    /// Pairs recorded under digest `h`, oldest first; empty when none.
    pub open spec fn lookup(self, h: Seq<u8>) -> Seq<(Seq<u8>, Seq<u8>)> {
        if self.contains_hash(h) {
            prow_model(self.rows@[self.index_of(h)]@)
        } else {
            Seq::<(Seq<u8>, Seq<u8>)>::empty()
        }
    }

    /// Some digest of the store names game `g`.
    pub open spec fn has_game(self, g: Seq<u8>) -> bool {
        exists|i: int, k: int|
            0 <= i < self.rows@.len() && 0 <= k < self.rows@[i]@.len()
                && self.rows@[i]@[k].0@ == g
    }

    pub fn new() -> (r: Store)
        ensures
            r.wf(),
            r.hashes@.len() == 0,
            forall|h: Seq<u8>| !r.contains_hash(h),
            forall|h: Seq<u8>| #[trigger] r.lookup(h) == Seq::<(Seq<u8>, Seq<u8>)>::empty(),
    {
        Store { hashes: Vec::new(), rows: Vec::new() }
    }

    pub fn get(&self, h: &[u8]) -> (r: Option<&Vec<(Vec<u8>, Vec<u8>)>>)
        requires
            self.wf(),
        ensures
            match r {
                Some(row) => self.contains_hash(h@) && prow_model(row@) == self.lookup(h@),
                None => !self.contains_hash(h@),
            },
    {
        let mut i: usize = 0;
        let n: usize = self.hashes.len();
        while i < n
            invariant
                0 <= i <= n,
                n == self.hashes@.len(),
                self.wf(),
                forall|j: int| 0 <= j < i ==> self.hashes@[j]@ != h@,
            decreases n - i,
        {
            if bytes_eq(self.hashes[i].as_slice(), h) {
                proof {
                    lemma_store_unique_index(*self, h@, i as int);
                }
                return Some(&self.rows[i]);
            }
            i = i + 1;
        }
        None
    }

    /// Record that digest `h` satisfied `(game, name)`: the pair is appended
    /// to the row of `h`, and no other row changes. The store only grows.
    pub fn record(&mut self, h: &[u8], game: &[u8], name: &[u8])
        requires
            old(self).wf(),
        ensures
            final(self).wf(),
            final(self).lookup(h@) == old(self).lookup(h@).push((game@, name@)),
            forall|h2: Seq<u8>|
                h2 != h@ ==> #[trigger] final(self).lookup(h2) == old(self).lookup(h2),
            final(self).contains_hash(h@),
            forall|h2: Seq<u8>|
                h2 != h@ ==> #[trigger] final(self).contains_hash(h2) == old(
                    self,
                ).contains_hash(h2),
    {
        let pair = (copy_bytes(game), copy_bytes(name));
        let mut i: usize = 0;
        let n: usize = self.hashes.len();
        while i < n
            invariant
                0 <= i <= n,
                n == self.hashes@.len(),
                self.wf(),
                *self == *old(self),
                pair.0@ == game@ && pair.1@ == name@,
                forall|j: int| 0 <= j < i ==> self.hashes@[j]@ != h@,
            decreases n - i,
        {
            if bytes_eq(self.hashes[i].as_slice(), h) {
                let mut row = self.rows.remove(i);
                row.push(pair);
                self.rows.insert(i, row);
                proof {
                    let pre = *old(self);
                    assert(self.hashes == pre.hashes);
                    assert(self.rows@ =~= pre.rows@.update(i as int, self.rows@[i as int]));
                    assert(self.rows@[i as int]@ == pre.rows@[i as int]@.push(pair));
                    lemma_store_unique_index(pre, h@, i as int);
                    lemma_store_unique_index(*self, h@, i as int);
                    assert(prow_model(pre.rows@[i as int]@.push(pair)) =~= prow_model(
                        pre.rows@[i as int]@,
                    ).push((game@, name@)));
                    assert forall|h2: Seq<u8>| h2 != h@ implies #[trigger] self.contains_hash(
                        h2,
                    ) == pre.contains_hash(h2) by {
                        if self.contains_hash(h2) {
                            let j = choose|j: int|
                                0 <= j < self.hashes@.len() && self.hashes@[j]@ == h2;
                            assert(pre.hashes@[j]@ == h2);
                        }
                        if pre.contains_hash(h2) {
                            let j = choose|j: int|
                                0 <= j < pre.hashes@.len() && pre.hashes@[j]@ == h2;
                            assert(self.hashes@[j]@ == h2);
                        }
                    }
                    assert forall|h2: Seq<u8>| h2 != h@ implies #[trigger] self.lookup(h2)
                        == pre.lookup(h2) by {
                        if pre.contains_hash(h2) {
                            let j = choose|j: int|
                                0 <= j < pre.hashes@.len() && pre.hashes@[j]@ == h2;
                            assert(self.hashes@[j]@ == h2);
                            lemma_store_unique_index(*self, h2, j);
                            lemma_store_unique_index(pre, h2, j);
                            assert(j != i);
                            assert(self.rows@[j] == pre.rows@[j]);
                        }
                    }
                }
                return;
            }
            i = i + 1;
        }
        self.hashes.push(copy_bytes(h));
        let mut row: Vec<(Vec<u8>, Vec<u8>)> = Vec::new();
        row.push(pair);
        self.rows.push(row);
        proof {
            let pre = *old(self);
            let m = pre.hashes@.len() as int;
            assert(self.hashes@[m]@ == h@);
            assert(self.contains_hash(h@));
            assert forall|i2: int, j2: int|
                0 <= i2 < j2 < self.hashes@.len() implies self.hashes@[i2]@
                != self.hashes@[j2]@ by {
                if j2 == m {
                    assert(self.hashes@[i2]@ == pre.hashes@[i2]@);
                }
            }
            assert(!pre.contains_hash(h@));
            lemma_store_unique_index(*self, h@, m);
            assert(prow_model(self.rows@[m]@) =~= Seq::<(Seq<u8>, Seq<u8>)>::empty().push(
                (game@, name@),
            ));
            assert forall|h2: Seq<u8>| h2 != h@ implies #[trigger] self.contains_hash(h2)
                == pre.contains_hash(h2) by {
                if self.contains_hash(h2) {
                    let j = choose|j: int|
                        0 <= j < self.hashes@.len() && self.hashes@[j]@ == h2;
                    assert(j != m);
                    assert(pre.hashes@[j]@ == h2);
                }
                if pre.contains_hash(h2) {
                    let j = choose|j: int|
                        0 <= j < pre.hashes@.len() && pre.hashes@[j]@ == h2;
                    assert(self.hashes@[j]@ == h2);
                }
            }
            assert forall|h2: Seq<u8>| h2 != h@ implies #[trigger] self.lookup(h2) == pre.lookup(
                h2,
            ) by {
                if pre.contains_hash(h2) {
                    let j = choose|j: int|
                        0 <= j < pre.hashes@.len() && pre.hashes@[j]@ == h2;
                    assert(self.hashes@[j]@ == h2);
                    lemma_store_unique_index(*self, h2, j);
                    lemma_store_unique_index(pre, h2, j);
                    assert(self.rows@[j] == pre.rows@[j]);
                }
            }
        }
    }
}

/// Under `wf`, the row at index `i` is the row of its own digest.
pub proof fn lemma_store_index(st: Store, h: Seq<u8>, i: int)
    requires
        st.wf(),
        0 <= i < st.hashes@.len(),
        st.hashes@[i]@ == h,
    ensures
        st.contains_hash(h),
        st.index_of(h) == i,
        st.lookup(h) == prow_model(st.rows@[i]@),
{
    lemma_store_unique_index(st, h, i);
}

proof fn lemma_store_unique_index(st: Store, h: Seq<u8>, i: int)
    requires
        st.wf(),
        0 <= i < st.hashes@.len(),
        st.hashes@[i]@ == h,
    ensures
        st.index_of(h) == i,
        st.contains_hash(h),
{
    assert(st.contains_hash(h));
    let j = st.index_of(h);
    assert(0 <= j < st.hashes@.len() && st.hashes@[j]@ == h);
    if j < i {
        assert(st.hashes@[j]@ != st.hashes@[i]@);
    } else if i < j {
        assert(st.hashes@[i]@ != st.hashes@[j]@);
    }
}

/// Map from clone game to parent game; empty for standard catalogs.
pub struct NameMap {
    pub keys: Vec<Vec<u8>>,
    pub vals: Vec<Vec<u8>>,
}

impl NameMap {
    pub open spec fn wf(self) -> bool {
        &&& self.keys@.len() == self.vals@.len()
        &&& forall|i: int, j: int|
            0 <= i < j < self.keys@.len() ==> self.keys@[i]@ != self.keys@[j]@
    }

    pub open spec fn contains_key(self, k: Seq<u8>) -> bool {
        exists|i: int| 0 <= i < self.keys@.len() && self.keys@[i]@ == k
    }

    pub open spec fn index_of(self, k: Seq<u8>) -> int {
        choose|i: int| 0 <= i < self.keys@.len() && self.keys@[i]@ == k
    }

    /// The parent recorded for clone `k`, if any.
    pub open spec fn lookup(self, k: Seq<u8>) -> Option<Seq<u8>> {
        if self.contains_key(k) {
            Some(self.vals@[self.index_of(k)]@)
        } else {
            None
        }
    }

    pub fn new() -> (r: NameMap)
        ensures
            r.wf(),
            r.keys@.len() == 0,
            forall|k: Seq<u8>| #[trigger] r.lookup(k) is None,
    {
        NameMap { keys: Vec::new(), vals: Vec::new() }
    }

    pub fn is_empty(&self) -> (r: bool)
        ensures
            r == (self.keys@.len() == 0),
    {
        self.keys.len() == 0
    }

    pub fn get(&self, k: &[u8]) -> (r: Option<&Vec<u8>>)
        requires
            self.wf(),
        ensures
            match r {
                Some(v) => self.lookup(k@) == Some(v@),
                None => self.lookup(k@) is None,
            },
    {
        let mut i: usize = 0;
        let n: usize = self.keys.len();
        while i < n
            invariant
                0 <= i <= n,
                n == self.keys@.len(),
                self.wf(),
                forall|j: int| 0 <= j < i ==> self.keys@[j]@ != k@,
            decreases n - i,
        {
            if bytes_eq(self.keys[i].as_slice(), k) {
                proof {
                    lemma_map_unique_index(*self, k@, i as int);
                }
                return Some(&self.vals[i]);
            }
            i = i + 1;
        }
        None
    }

    /// Bind clone `k` to parent `v`; an earlier binding of `k` is replaced.
    pub fn set(&mut self, k: &[u8], v: &[u8])
        requires
            old(self).wf(),
        ensures
            final(self).wf(),
            final(self).lookup(k@) == Some(v@),
            forall|k2: Seq<u8>|
                k2 != k@ ==> #[trigger] final(self).lookup(k2) == old(self).lookup(k2),
    {
        let mut i: usize = 0;
        let n: usize = self.keys.len();
        while i < n
            invariant
                0 <= i <= n,
                n == self.keys@.len(),
                self.wf(),
                *self == *old(self),
                forall|j: int| 0 <= j < i ==> self.keys@[j]@ != k@,
            decreases n - i,
        {
            if bytes_eq(self.keys[i].as_slice(), k) {
                self.vals.remove(i);
                self.vals.insert(i, copy_bytes(v));
                proof {
                    let pre = *old(self);
                    assert(self.keys == pre.keys);
                    assert(self.vals@ =~= pre.vals@.update(i as int, self.vals@[i as int]));
                    lemma_map_unique_index(pre, k@, i as int);
                    lemma_map_unique_index(*self, k@, i as int);
                    assert forall|k2: Seq<u8>| k2 != k@ implies #[trigger] self.lookup(k2)
                        == pre.lookup(k2) by {
                        if self.contains_key(k2) {
                            let j = choose|j: int|
                                0 <= j < self.keys@.len() && self.keys@[j]@ == k2;
                            assert(pre.keys@[j]@ == k2);
                            lemma_map_unique_index(*self, k2, j);
                            lemma_map_unique_index(pre, k2, j);
                            assert(j != i);
                        }
                        if pre.contains_key(k2) {
                            let j = choose|j: int|
                                0 <= j < pre.keys@.len() && pre.keys@[j]@ == k2;
                            assert(self.keys@[j]@ == k2);
                            lemma_map_unique_index(*self, k2, j);
                            lemma_map_unique_index(pre, k2, j);
                            assert(j != i);
                        }
                    }
                }
                return;
            }
            i = i + 1;
        }
        self.keys.push(copy_bytes(k));
        self.vals.push(copy_bytes(v));
        proof {
            let pre = *old(self);
            let m = pre.keys@.len() as int;
            assert(self.keys@[m]@ == k@);
            assert forall|i2: int, j2: int|
                0 <= i2 < j2 < self.keys@.len() implies self.keys@[i2]@ != self.keys@[j2]@ by {
                if j2 == m {
                    assert(self.keys@[i2]@ == pre.keys@[i2]@);
                }
            }
            lemma_map_unique_index(*self, k@, m);
            assert forall|k2: Seq<u8>| k2 != k@ implies #[trigger] self.lookup(k2) == pre.lookup(
                k2,
            ) by {
                if self.contains_key(k2) {
                    let j = choose|j: int|
                        0 <= j < self.keys@.len() && self.keys@[j]@ == k2;
                    assert(j != m);
                    assert(pre.keys@[j]@ == k2);
                    lemma_map_unique_index(*self, k2, j);
                    lemma_map_unique_index(pre, k2, j);
                } else {
                    if pre.contains_key(k2) {
                        let j = choose|j: int|
                            0 <= j < pre.keys@.len() && pre.keys@[j]@ == k2;
                        assert(self.keys@[j]@ == k2);
                    }
                }
            }
        }
    }

    pub fn key_count(&self) -> (r: usize)
        ensures
            r == self.keys@.len(),
    {
        self.keys.len()
    }
}

proof fn lemma_map_unique_index(m: NameMap, k: Seq<u8>, i: int)
    requires
        m.wf(),
        0 <= i < m.keys@.len(),
        m.keys@[i]@ == k,
    ensures
        m.index_of(k) == i,
        m.contains_key(k),
{
    assert(m.contains_key(k));
    let j = m.index_of(k);
    assert(0 <= j < m.keys@.len() && m.keys@[j]@ == k);
    if j < i {
        assert(m.keys@[j]@ != m.keys@[i]@);
    } else if i < j {
        assert(m.keys@[i]@ != m.keys@[j]@);
    }
}

} // verus!
