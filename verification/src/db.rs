//! Catalog index and game set: association containers keyed by byte strings,
//! with distinct keys and a mathematical lookup model.

use vstd::prelude::*;
use crate::bytes::{bytes_eq, copy_bytes};
use crate::types::{EntryModel, RomEntry};

verus! {

/// Index from digest string to the ordered list of catalog entries declaring
/// that digest. One entry is indexed under every digest kind it declares, so
/// the same entry is reachable via its sha1, md5 and crc keys.
pub struct RomDb {
    pub keys: Vec<Vec<u8>>,
    pub rows: Vec<Vec<RomEntry>>,
}

/// Ghost model of one stored row.
pub open spec fn row_model(row: Seq<RomEntry>) -> Seq<EntryModel> {
    row.map_values(|e: RomEntry| e@)
}

impl RomDb {
    /// Structural invariant: one row per key, keys pairwise distinct.
    pub open spec fn wf(self) -> bool {
        &&& self.keys@.len() == self.rows@.len()
        &&& forall|i: int, j: int|
            0 <= i < j < self.keys@.len() ==> self.keys@[i]@ != self.keys@[j]@
    }

    pub open spec fn contains_hash(self, h: Seq<u8>) -> bool {
        exists|i: int| 0 <= i < self.keys@.len() && self.keys@[i]@ == h
    }

    pub open spec fn index_of(self, h: Seq<u8>) -> int {
        choose|i: int| 0 <= i < self.keys@.len() && self.keys@[i]@ == h
    }

    /// Entries indexed under digest `h`, in insertion order; empty when the
    /// digest is not declared by any entry.
    pub open spec fn lookup(self, h: Seq<u8>) -> Seq<EntryModel> {
        if self.contains_hash(h) {
            row_model(self.rows@[self.index_of(h)]@)
        } else {
            Seq::<EntryModel>::empty()
        }
    }

    pub fn new() -> (r: RomDb)
        ensures
            r.wf(),
            r.keys@.len() == 0,
            forall|h: Seq<u8>| #[trigger] r.lookup(h) == Seq::<EntryModel>::empty(),
    {
        let r = RomDb { keys: Vec::new(), rows: Vec::new() };
        proof {
            assert(forall|h: Seq<u8>| !r.contains_hash(h));
        }
        r
    }

    pub fn hash_count(&self) -> (r: usize)
        ensures
            r == self.keys@.len(),
    {
        self.keys.len()
    }

    /// The row stored under digest `h`, if any.
    pub fn get(&self, h: &[u8]) -> (r: Option<&Vec<RomEntry>>)
        requires
            self.wf(),
        ensures
            match r {
                Some(row) => self.contains_hash(h@) && row_model(row@) == self.lookup(h@),
                None => !self.contains_hash(h@),
            },
    {
        let mut i: usize = 0;
        let n: usize = self.keys.len();
        while i < n
            invariant
                0 <= i <= n,
                n == self.keys@.len(),
                self.wf(),
                forall|j: int| 0 <= j < i ==> self.keys@[j]@ != h@,
            decreases n - i,
        {
            if bytes_eq(self.keys[i].as_slice(), h) {
                proof {
                    assert(self.contains_hash(h@));
                    let j = self.index_of(h@);
                    assert(0 <= j < self.keys@.len() && self.keys@[j]@ == h@);
                    if j != i {
                        assert(self.keys@[j]@ != self.keys@[i as int]@);
                    }
                }
                return Some(&self.rows[i]);
            }
            i = i + 1;
        }
        None
    }

    /// Register `e` under digest `h`: appended to the row of `h`, which is
    /// created when absent. No other digest's row changes.
    pub fn insert_entry(&mut self, h: &[u8], e: RomEntry)
        requires
            old(self).wf(),
        ensures
            final(self).wf(),
            final(self).lookup(h@) == old(self).lookup(h@).push(e@),
            forall|h2: Seq<u8>|
                h2 != h@ ==> #[trigger] final(self).lookup(h2) == old(self).lookup(h2),
            final(self).contains_hash(h@),
            forall|h2: Seq<u8>|
                h2 != h@ ==> #[trigger] final(self).contains_hash(h2) == old(
                    self,
                ).contains_hash(h2),
    {
        let ghost pre = *old(self);
        let mut i: usize = 0;
        let n: usize = self.keys.len();
        while i < n
            invariant
                0 <= i <= n,
                n == self.keys@.len(),
                self.wf(),
                *self == *old(self),
                forall|j: int| 0 <= j < i ==> self.keys@[j]@ != h@,
            decreases n - i,
        {
            if bytes_eq(self.keys[i].as_slice(), h) {
                let mut row = self.rows.remove(i);
                row.push(e);
                self.rows.insert(i, row);
                proof {
                    let pre = *old(self);
                    assert(self.keys == pre.keys);
                    assert(self.rows@ =~= pre.rows@.update(
                        i as int,
                        self.rows@[i as int],
                    ));
                    assert(self.rows@[i as int]@ == pre.rows@[i as int]@.push(e));
                    lemma_unique_index(pre, h@, i as int);
                    lemma_unique_index(*self, h@, i as int);
                    assert(row_model(pre.rows@[i as int]@.push(e)) =~= row_model(
                        pre.rows@[i as int]@,
                    ).push(e@));
                    assert forall|h2: Seq<u8>| h2 != h@ implies #[trigger] self.contains_hash(
                        h2,
                    ) == pre.contains_hash(h2) by {
                        if self.contains_hash(h2) {
                            let j = choose|j: int|
                                0 <= j < self.keys@.len() && self.keys@[j]@ == h2;
                            assert(pre.keys@[j]@ == h2);
                        }
                        if pre.contains_hash(h2) {
                            let j = choose|j: int|
                                0 <= j < pre.keys@.len() && pre.keys@[j]@ == h2;
                            assert(self.keys@[j]@ == h2);
                        }
                    }
                    assert forall|h2: Seq<u8>| h2 != h@ implies #[trigger] self.lookup(h2)
                        == pre.lookup(h2) by {
                        if pre.contains_hash(h2) {
                            let j = choose|j: int|
                                0 <= j < pre.keys@.len() && pre.keys@[j]@ == h2;
                            assert(self.keys@[j]@ == h2);
                            lemma_unique_index(*self, h2, j);
                            lemma_unique_index(pre, h2, j);
                            assert(j != i);
                            assert(self.rows@[j] == pre.rows@[j]);
                        }
                    }
                }
                return;
            }
            i = i + 1;
        }
        self.keys.push(copy_bytes(h));
        let mut row: Vec<RomEntry> = Vec::new();
        row.push(e);
        self.rows.push(row);
        proof {
            let m = pre.keys@.len() as int;
            assert(self.keys@[m]@ == h@);
            assert(self.contains_hash(h@));
            assert forall|i2: int, j2: int|
                0 <= i2 < j2 < self.keys@.len() implies self.keys@[i2]@ != self.keys@[j2]@ by {
                if j2 == m {
                    assert(self.keys@[i2]@ == pre.keys@[i2]@);
                }
            }
            assert(!pre.contains_hash(h@));
            lemma_unique_index(*self, h@, m);
            assert(row_model(self.rows@[m]@) =~= Seq::<EntryModel>::empty().push(e@));
            assert forall|h2: Seq<u8>| h2 != h@ implies #[trigger] self.contains_hash(h2)
                == pre.contains_hash(h2) by {
                if self.contains_hash(h2) {
                    let j = choose|j: int|
                        0 <= j < self.keys@.len() && self.keys@[j]@ == h2;
                    assert(j != m);
                    assert(pre.keys@[j]@ == h2);
                }
                if pre.contains_hash(h2) {
                    let j = choose|j: int|
                        0 <= j < pre.keys@.len() && pre.keys@[j]@ == h2;
                    assert(self.keys@[j]@ == h2);
                }
            }
            assert forall|h2: Seq<u8>| h2 != h@ implies #[trigger] self.lookup(h2) == pre.lookup(
                h2,
            ) by {
                if pre.contains_hash(h2) {
                    let j = choose|j: int| 0 <= j < pre.keys@.len() && pre.keys@[j]@ == h2;
                    assert(self.keys@[j]@ == h2);
                    lemma_unique_index(*self, h2, j);
                    lemma_unique_index(pre, h2, j);
                    assert(self.rows@[j] == pre.rows@[j]);
                }
            }
        }
    }
}

/// Under `wf`, the index holding `h` is unique, so `index_of` returns `i`.
proof fn lemma_unique_index(db: RomDb, h: Seq<u8>, i: int)
    requires
        db.wf(),
        0 <= i < db.keys@.len(),
        db.keys@[i]@ == h,
    ensures
        db.index_of(h) == i,
{
    assert(db.contains_hash(h));
    let j = db.index_of(h);
    assert(0 <= j < db.keys@.len() && db.keys@[j]@ == h);
    if j < i {
        assert(db.keys@[j]@ != db.keys@[i]@);
    } else if i < j {
        assert(db.keys@[i]@ != db.keys@[j]@);
    }
}

/// A lookup finds exactly what was registered: inserting an entry under a
/// digest appends it to that digest's row and touches no other row.
pub proof fn lemma_inserted_entry_found(
    pre: RomDb,
    post: RomDb,
    h: Seq<u8>,
    e: EntryModel,
)
    requires
        pre.wf(),
        post.lookup(h) == pre.lookup(h).push(e),
        forall|h2: Seq<u8>| h2 != h ==> #[trigger] post.lookup(h2) == pre.lookup(h2),
    ensures
        post.lookup(h).contains(e),
        forall|h2: Seq<u8>, x: EntryModel|
            #[trigger] pre.lookup(h2).contains(x) ==> post.lookup(h2).contains(x),
{
    assert(post.lookup(h)[post.lookup(h).len() - 1] == e);
    assert forall|h2: Seq<u8>, x: EntryModel|
        #[trigger] pre.lookup(h2).contains(x) implies post.lookup(h2).contains(x) by {
        if h2 == h {
            let k = choose|k: int| 0 <= k < pre.lookup(h2).len() && pre.lookup(h2)[k] == x;
            assert(post.lookup(h2)[k] == x);
        }
    }
}

/// A set of game names with pairwise distinct members.
pub struct GameSet {
    pub items: Vec<Vec<u8>>,
}

impl GameSet {
    pub open spec fn wf(self) -> bool {
        forall|i: int, j: int|
            0 <= i < j < self.items@.len() ==> self.items@[i]@ != self.items@[j]@
    }

    pub open spec fn has(self, g: Seq<u8>) -> bool {
        exists|i: int| 0 <= i < self.items@.len() && self.items@[i]@ == g
    }

    /// Number of members; meaningful because members are distinct.
    pub open spec fn card(self) -> nat {
        self.items@.len()
    }

    pub fn new() -> (r: GameSet)
        ensures
            r.wf(),
            r.card() == 0,
            forall|g: Seq<u8>| !r.has(g),
    {
        GameSet { items: Vec::new() }
    }

    pub fn contains(&self, g: &[u8]) -> (r: bool)
        ensures
            r == self.has(g@),
    {
        let mut i: usize = 0;
        let n: usize = self.items.len();
        while i < n
            invariant
                0 <= i <= n,
                n == self.items@.len(),
                forall|j: int| 0 <= j < i ==> self.items@[j]@ != g@,
            decreases n - i,
        {
            if bytes_eq(self.items[i].as_slice(), g) {
                return true;
            }
            i = i + 1;
        }
        false
    }

    /// Add `g` when absent; membership of every other name is unchanged.
    pub fn insert(&mut self, g: &[u8])
        requires
            old(self).wf(),
        ensures
            final(self).wf(),
            final(self).has(g@),
            forall|x: Seq<u8>|
                #[trigger] final(self).has(x) == (old(self).has(x) || x == g@),
            old(self).has(g@) ==> final(self).items@ == old(self).items@,
            final(self).card() == if old(self).has(g@) {
                old(self).card()
            } else {
                old(self).card() + 1
            },
    {
        let ghost pre = *self;
        if self.contains(g) {
            return;
        }
        self.items.push(copy_bytes(g));
        proof {
            let m = pre.items@.len() as int;
            assert(self.items@[m]@ == g@);
            assert forall|i2: int, j2: int|
                0 <= i2 < j2 < self.items@.len() implies self.items@[i2]@
                != self.items@[j2]@ by {
                if j2 == m {
                    assert(self.items@[i2]@ == pre.items@[i2]@);
                }
            }
            assert forall|x: Seq<u8>| #[trigger] self.has(x) == (pre.has(x) || x == g@) by {
                if self.has(x) {
                    let j = choose|j: int|
                        0 <= j < self.items@.len() && self.items@[j]@ == x;
                    if j != m {
                        assert(pre.items@[j]@ == x);
                    }
                }
                if pre.has(x) {
                    let j = choose|j: int|
                        0 <= j < pre.items@.len() && pre.items@[j]@ == x;
                    assert(self.items@[j]@ == x);
                }
            }
        }
    }

    pub fn len(&self) -> (r: usize)
        ensures
            r == self.card(),
    {
        self.items.len()
    }

    /// The members as a list, one slot per member.
    pub fn members(&self) -> (r: &Vec<Vec<u8>>)
        ensures
            r@ == self.items@,
    {
        &self.items
    }
}

} // verus!
