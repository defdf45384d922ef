//! Incremental-scan bookkeeping: which files changed since the last run,
//! decided from recorded size and modification time. The caller supplies
//! file metadata as plain values; nothing here touches a disk.

use vstd::prelude::*;
use crate::bytes::{bytes_eq, copy_bytes};
use crate::db::GameSet;

verus! {

/// Size and modification time of a file as seen on disk.
#[derive(Clone, Copy, Debug, PartialEq, Eq, Structural)]
pub struct FileMeta {
    pub size: u64,
    pub modified_s: u64,
    pub modified_ns: u32,
}

/// What was recorded about one file at its last scan.
pub struct FileScanState {
    pub path: Vec<u8>,
    pub size: u64,
    pub modified_s: u64,
    pub modified_ns: u32,
    pub sha1: Vec<u8>,
    pub last_scanned_s: u64,
}

/// Recorded scan state across runs, one record per path.
pub struct IncrementalScanState {
    pub files: Vec<FileScanState>,
    pub last_full_scan: Option<u64>,
    pub version: u32,
}

impl IncrementalScanState {
    pub open spec fn wf(self) -> bool {
        forall|i: int, j: int|
            0 <= i < j < self.files@.len() ==> self.files@[i].path@ != self.files@[j].path@
    }

    pub open spec fn tracks(self, p: Seq<u8>) -> bool {
        exists|i: int| 0 <= i < self.files@.len() && self.files@[i].path@ == p
    }

    pub open spec fn idx_of(self, p: Seq<u8>) -> int {
        choose|i: int| 0 <= i < self.files@.len() && self.files@[i].path@ == p
    }

    /// The record of path `p`; meaningful only when tracked.
    pub open spec fn state_at(self, p: Seq<u8>) -> FileScanState {
        self.files@[self.idx_of(p)]
    }

    /// A file needs rescanning when it exists but is untracked, its metadata
    /// cannot be read, or its recorded size or modification time differs.
    pub open spec fn needs_rescan_spec(
        self,
        p: Seq<u8>,
        exists_on_disk: bool,
        meta: Option<FileMeta>,
    ) -> bool {
        if !exists_on_disk {
            false
        } else {
            match meta {
                None => true,
                Some(m) => {
                    if self.tracks(p) {
                        let st = self.state_at(p);
                        st.size != m.size || st.modified_s != m.modified_s || st.modified_ns
                            != m.modified_ns
                    } else {
                        true
                    }
                },
            }
        }
    }

    pub fn new() -> (r: IncrementalScanState)
        ensures
            r.wf(),
            r.files@.len() == 0,
            r.last_full_scan is None,
            r.version == 1,
    {
        IncrementalScanState { files: Vec::new(), last_full_scan: None, version: 1 }
    }

    fn find(&self, p: &[u8]) -> (r: Option<usize>)
        requires
            self.wf(),
        ensures
            match r {
                Some(i) => i < self.files@.len() && self.files@[i as int].path@ == p@
                    && self.idx_of(p@) == i && self.tracks(p@),
                None => !self.tracks(p@),
            },
    {
        let mut i: usize = 0;
        let n: usize = self.files.len();
        while i < n
            invariant
                0 <= i <= n,
                n == self.files@.len(),
                self.wf(),
                forall|j: int| 0 <= j < i ==> self.files@[j].path@ != p@,
            decreases n - i,
        {
            if bytes_eq(self.files[i].path.as_slice(), p) {
                proof {
                    lemma_state_unique(*self, p@, i as int);
                }
                return Some(i);
            }
            i = i + 1;
        }
        None
    }

    /// Decide `needs_rescan_spec` for a path, given its current metadata.
    pub fn needs_rescan(&self, path: &[u8], exists_on_disk: bool, meta: Option<FileMeta>) -> (r:
        bool)
        requires
            self.wf(),
        ensures
            r == self.needs_rescan_spec(path@, exists_on_disk, meta),
    {
        if !exists_on_disk {
            return false;
        }
        match meta {
            None => true,
            Some(m) => {
                match self.find(path) {
                    Some(i) => {
                        let st = &self.files[i];
                        st.size != m.size || st.modified_s != m.modified_s || st.modified_ns
                            != m.modified_ns
                    },
                    None => true,
                }
            },
        }
    }

    /// Record a fresh scan of `path`: its metadata, digest and scan time.
    pub fn update_file(&mut self, path: &[u8], sha1: &[u8], meta: FileMeta, now_s: u64)
        requires
            old(self).wf(),
        ensures
            final(self).wf(),
            final(self).tracks(path@),
            final(self).state_at(path@).path@ == path@,
            final(self).state_at(path@).size == meta.size,
            final(self).state_at(path@).modified_s == meta.modified_s,
            final(self).state_at(path@).modified_ns == meta.modified_ns,
            final(self).state_at(path@).sha1@ == sha1@,
            final(self).state_at(path@).last_scanned_s == now_s,
            forall|p2: Seq<u8>|
                p2 != path@ ==> #[trigger] final(self).tracks(p2) == old(self).tracks(p2),
            forall|p2: Seq<u8>|
                p2 != path@ && old(self).tracks(p2) ==> #[trigger] final(self).state_at(p2)
                    == old(self).state_at(p2),
            final(self).last_full_scan == old(self).last_full_scan,
    {
        let st = FileScanState {
            path: copy_bytes(path),
            size: meta.size,
            modified_s: meta.modified_s,
            modified_ns: meta.modified_ns,
            sha1: copy_bytes(sha1),
            last_scanned_s: now_s,
        };
        match self.find(path) {
            Some(i) => {
                self.files.remove(i);
                self.files.insert(i, st);
                proof {
                    let pre = *old(self);
                    assert(self.files@ =~= pre.files@.update(i as int, self.files@[i as int]));
                    lemma_state_unique(*self, path@, i as int);
                    assert forall|p2: Seq<u8>| p2 != path@ implies #[trigger] self.tracks(p2)
                        == pre.tracks(p2) by {
                        if self.tracks(p2) {
                            let j = choose|j: int|
                                0 <= j < self.files@.len() && self.files@[j].path@ == p2;
                            assert(j != i);
                            assert(pre.files@[j].path@ == p2);
                        }
                        if pre.tracks(p2) {
                            let j = choose|j: int|
                                0 <= j < pre.files@.len() && pre.files@[j].path@ == p2;
                            assert(j != i);
                            assert(self.files@[j].path@ == p2);
                        }
                    }
                    assert forall|p2: Seq<u8>|
                        p2 != path@ && pre.tracks(p2) implies #[trigger] self.state_at(p2)
                        == pre.state_at(p2) by {
                        let j = choose|j: int|
                            0 <= j < pre.files@.len() && pre.files@[j].path@ == p2;
                        assert(self.files@[j].path@ == p2);
                        lemma_state_unique(*self, p2, j);
                        lemma_state_unique(pre, p2, j);
                    }
                }
            },
            None => {
                self.files.push(st);
                proof {
                    let pre = *old(self);
                    let m = pre.files@.len() as int;
                    assert(self.files@[m].path@ == path@);
                    assert forall|i2: int, j2: int|
                        0 <= i2 < j2 < self.files@.len() implies self.files@[i2].path@
                        != self.files@[j2].path@ by {
                        if j2 == m {
                            assert(self.files@[i2] == pre.files@[i2]);
                        }
                    }
                    lemma_state_unique(*self, path@, m);
                    assert forall|p2: Seq<u8>| p2 != path@ implies #[trigger] self.tracks(p2)
                        == pre.tracks(p2) by {
                        if self.tracks(p2) {
                            let j = choose|j: int|
                                0 <= j < self.files@.len() && self.files@[j].path@ == p2;
                            assert(j != m);
                            assert(pre.files@[j].path@ == p2);
                        }
                        if pre.tracks(p2) {
                            let j = choose|j: int|
                                0 <= j < pre.files@.len() && pre.files@[j].path@ == p2;
                            assert(self.files@[j].path@ == p2);
                        }
                    }
                    assert forall|p2: Seq<u8>|
                        p2 != path@ && pre.tracks(p2) implies #[trigger] self.state_at(p2)
                        == pre.state_at(p2) by {
                        let j = choose|j: int|
                            0 <= j < pre.files@.len() && pre.files@[j].path@ == p2;
                        assert(self.files@[j].path@ == p2);
                        lemma_state_unique(*self, p2, j);
                        lemma_state_unique(pre, p2, j);
                    }
                }
            },
        }
    }

    /// Drop records of paths no longer present.
    pub fn cleanup(&mut self, present: &GameSet)
        requires
            old(self).wf(),
        ensures
            final(self).wf(),
            forall|p: Seq<u8>|
                #[trigger] final(self).tracks(p) == (old(self).tracks(p) && present.has(p)),
            forall|p: Seq<u8>|
                final(self).tracks(p) ==> #[trigger] final(self).state_at(p) == old(
                    self,
                ).state_at(p),
            final(self).last_full_scan == old(self).last_full_scan,
            final(self).version == old(self).version,
    {
        let ghost orig = old(self).files@;
        let total: usize = self.files.len();
        let mut kept: Vec<FileScanState> = Vec::new();
        let mut k: usize = 0;
        proof {
            assert(orig.len() == total);
            assert(self.files@ =~= orig.skip(0));
        }
        while self.files.len() > 0
            invariant
                0 <= k <= orig.len(),
                orig.len() <= usize::MAX,
                self.files@ == orig.skip(k as int),
                self.last_full_scan == old(self).last_full_scan,
                self.version == old(self).version,
                old(self).wf(),
                orig == old(self).files@,
                forall|a: int| 0 <= a < kept@.len() ==> present.has(#[trigger] kept@[a].path@),
                forall|a: int|
                    0 <= a < kept@.len() ==> exists|b: int|
                        0 <= b < k && #[trigger] kept@[a] == orig[b],
                forall|b: int|
                    0 <= b < k && present.has(#[trigger] orig[b].path@) ==> exists|a: int|
                        0 <= a < kept@.len() && kept@[a] == orig[b],
                forall|a1: int, a2: int|
                    0 <= a1 < a2 < kept@.len() ==> kept@[a1].path@ != kept@[a2].path@,
            decreases self.files@.len(),
        {
            let st = self.files.remove(0);
            proof {
                assert(st == orig[k as int]);
                assert(self.files@ =~= orig.skip(k + 1 as int));
            }
            let keep_it = present.contains(st.path.as_slice());
            let ghost kept_pre = kept@;
            if keep_it {
                kept.push(st);
                proof {
                    let m = kept_pre.len() as int;
                    assert(kept@[m] == orig[k as int]);
                    assert forall|a: int|
                        0 <= a < kept@.len() implies exists|b: int|
                        0 <= b < k + 1 && #[trigger] kept@[a] == orig[b] by {
                        if a < m {
                            assert(kept@[a] == kept_pre[a]);
                            let b = choose|b: int|
                                0 <= b < k && #[trigger] kept_pre[a] == orig[b];
                            assert(kept@[a] == orig[b]);
                        } else {
                            assert(kept@[a] == orig[k as int]);
                        }
                    }
                    assert forall|b: int|
                        0 <= b < k + 1 && present.has(#[trigger] orig[b].path@) implies exists|
                        a: int,
                    |
                        0 <= a < kept@.len() && kept@[a] == orig[b] by {
                        if b < k {
                            let a = choose|a: int|
                                0 <= a < kept_pre.len() && kept_pre[a] == orig[b];
                            assert(kept@[a] == orig[b]);
                        } else {
                            assert(kept@[m] == orig[b]);
                        }
                    }
                    assert forall|a1: int, a2: int|
                        0 <= a1 < a2 < kept@.len() implies kept@[a1].path@
                        != kept@[a2].path@ by {
                        if a2 == m {
                            let b = choose|b: int|
                                0 <= b < k && #[trigger] kept_pre[a1] == orig[b];
                            assert(orig[b].path@ != orig[k as int].path@);
                            assert(kept@[a1] == kept_pre[a1]);
                        } else {
                            assert(kept@[a1] == kept_pre[a1] && kept@[a2] == kept_pre[a2]);
                        }
                    }
                }
            } else {
                proof {
                    assert forall|b: int|
                        0 <= b < k + 1 && present.has(#[trigger] orig[b].path@) implies exists|
                        a: int,
                    |
                        0 <= a < kept@.len() && kept@[a] == orig[b] by {
                        if b < k {
                            let a = choose|a: int|
                                0 <= a < kept_pre.len() && kept_pre[a] == orig[b];
                        }
                    }
                }
            }
            k = k + 1;
        }
        self.files = kept;
        proof {
            let pre = *old(self);
            assert(k == orig.len());
            assert forall|p: Seq<u8>| #[trigger] self.tracks(p) == (pre.tracks(p)
                && present.has(p)) by {
                if self.tracks(p) {
                    let a = choose|a: int|
                        0 <= a < self.files@.len() && self.files@[a].path@ == p;
                    assert(present.has(self.files@[a].path@));
                    let b = choose|b: int|
                        0 <= b < orig.len() && #[trigger] self.files@[a] == orig[b];
                    assert(pre.files@[b].path@ == p);
                }
                if pre.tracks(p) && present.has(p) {
                    let b = choose|b: int| 0 <= b < orig.len() && orig[b].path@ == p;
                    assert(present.has(orig[b].path@));
                    let a = choose|a: int|
                        0 <= a < self.files@.len() && self.files@[a] == orig[b];
                    assert(self.files@[a].path@ == p);
                }
            }
            assert forall|p: Seq<u8>| self.tracks(p) implies #[trigger] self.state_at(p)
                == pre.state_at(p) by {
                let a = self.idx_of(p);
                assert(0 <= a < self.files@.len() && self.files@[a].path@ == p);
                let b = choose|b: int|
                    0 <= b < orig.len() && #[trigger] self.files@[a] == orig[b];
                lemma_state_unique(pre, p, b);
            }
        }
    }

    /// Mark a completed full scan.
    pub fn mark_full_scan_complete(&mut self, now_s: u64)
        ensures
            final(self).files@ == old(self).files@,
            final(self).last_full_scan == Some(now_s),
    {
        self.last_full_scan = Some(now_s);
    }

    /// Paths of `all` that need scanning; `all` pairs each path with whether
    /// it exists and its metadata.
    pub fn get_files_to_scan(&self, all: &Vec<(Vec<u8>, bool, Option<FileMeta>)>) -> (r: Vec<
        Vec<u8>,
    >)
        requires
            self.wf(),
        ensures
            r@.map_values(|p: Vec<u8>| p@) == to_scan_spec(*self, all@, all@.len() as int),
    {
        let mut r: Vec<Vec<u8>> = Vec::new();
        let mut i: usize = 0;
        proof {
            assert(r@.map_values(|p: Vec<u8>| p@) =~= to_scan_spec(*self, all@, 0));
        }
        while i < all.len()
            invariant
                0 <= i <= all@.len(),
                self.wf(),
                r@.map_values(|p: Vec<u8>| p@) == to_scan_spec(*self, all@, i as int),
            decreases all@.len() - i,
        {
            let entry = &all[i];
            if self.needs_rescan(entry.0.as_slice(), entry.1, entry.2) {
                r.push(copy_bytes(entry.0.as_slice()));
                proof {
                    assert(r@.map_values(|p: Vec<u8>| p@) =~= to_scan_spec(
                        *self,
                        all@,
                        i as int,
                    ).push(all@[i as int].0@));
                }
            }
            i = i + 1;
        }
        r
    }

    pub fn tracked_count(&self) -> (r: usize)
        ensures
            r == self.files@.len(),
    {
        self.files.len()
    }
}

/// Paths among the first `i` of `all` whose entry needs rescanning.
pub open spec fn to_scan_spec(
    st: IncrementalScanState,
    all: Seq<(Vec<u8>, bool, Option<FileMeta>)>,
    i: int,
) -> Seq<Seq<u8>>
    decreases i,
{
    if i <= 0 {
        Seq::<Seq<u8>>::empty()
    } else {
        let rest = to_scan_spec(st, all, i - 1);
        if st.needs_rescan_spec(all[i - 1].0@, all[i - 1].1, all[i - 1].2) {
            rest.push(all[i - 1].0@)
        } else {
            rest
        }
    }
}

proof fn lemma_state_unique(st: IncrementalScanState, p: Seq<u8>, i: int)
    requires
        st.wf(),
        0 <= i < st.files@.len(),
        st.files@[i].path@ == p,
    ensures
        st.idx_of(p) == i,
        st.tracks(p),
{
    assert(st.tracks(p));
    let j = st.idx_of(p);
    assert(0 <= j < st.files@.len() && st.files@[j].path@ == p);
    if j < i {
        assert(st.files@[j].path@ != st.files@[i].path@);
    } else if i < j {
        assert(st.files@[i].path@ != st.files@[j].path@);
    }
}

/// Whether an incremental pass is worthwhile: few changes or a large tree.
pub fn should_use_incremental(total_files: usize, changed_files: usize) -> (r: bool)
    ensures
        r == (changed_files < total_files / 5 || total_files > 1000),
{
    changed_files < total_files / 5 || total_files > 1000
}

/// Summary of the recorded scan state.
pub struct ScanStats {
    pub total_tracked: usize,
    pub valid_entries: usize,
    pub stale_entries: usize,
    pub last_full_scan: Option<u64>,
}

} // verus!
