//! Matching and placement engine: union lookup of a file's digests, set-type
//! filtering for hierarchical catalogs, destination construction, and the
//! per-file placement decision with its provenance updates.

use vstd::prelude::*;
use crate::bytes::{bytes_eq, copy_bytes, push_all};
use crate::config::Config;
use crate::db::{row_model, GameSet, RomDb};
use crate::rules::{base_component, has_sep, needs_folder_spec, stops_model};
use crate::store::{NameMap, Store};
use crate::types::{DatType, EntryModel, FileHash, ProcessResult, RomEntry};

verus! {

// ---------------------------------------------------------------------------
// Union lookup, de-duplicated by entry name
// ---------------------------------------------------------------------------
pub open spec fn has_name(es: Seq<EntryModel>, n: Seq<u8>) -> bool {
    exists|i: int| 0 <= i < es.len() && es[i].name == n
}

/// First occurrence per entry name, in order.
pub open spec fn dedup_by_name(es: Seq<EntryModel>) -> Seq<EntryModel>
    decreases es.len(),
{
    if es.len() == 0 {
        es
    } else if has_name(es.drop_last(), es.last().name) {
        dedup_by_name(es.drop_last())
    } else {
        dedup_by_name(es.drop_last()).push(es.last())
    }
}

proof fn lemma_dedup_has_name(es: Seq<EntryModel>, n: Seq<u8>)
    ensures
        has_name(dedup_by_name(es), n) == has_name(es, n),
    decreases es.len(),
{
    if es.len() == 0 {
    } else {
        lemma_dedup_has_name(es.drop_last(), n);
        let d = dedup_by_name(es);
        if has_name(es.drop_last(), es.last().name) {
            if has_name(es, n) {
                let i = choose|i: int| 0 <= i < es.len() && es[i].name == n;
                if i == es.len() - 1 {
                    assert(has_name(es.drop_last(), n));
                } else {
                    assert(es.drop_last()[i].name == n);
                }
            }
            if has_name(es.drop_last(), n) {
                let i = choose|i: int| 0 <= i < es.drop_last().len() && es.drop_last()[i].name == n;
                assert(es[i].name == n);
            }
        } else {
            let dd = dedup_by_name(es.drop_last());
            if has_name(es, n) {
                let i = choose|i: int| 0 <= i < es.len() && es[i].name == n;
                if i == es.len() - 1 {
                    assert(d[d.len() - 1].name == n);
                } else {
                    assert(es.drop_last()[i].name == n);
                    assert(has_name(dd, n));
                    let j = choose|j: int| 0 <= j < dd.len() && dd[j].name == n;
                    assert(d[j].name == n);
                }
            }
            if has_name(d, n) {
                let j = choose|j: int| 0 <= j < d.len() && d[j].name == n;
                if j == d.len() - 1 {
                    assert(es[es.len() - 1].name == n);
                } else {
                    assert(dd[j].name == n);
                    assert(has_name(es.drop_last(), n));
                    let i = choose|i: int|
                        0 <= i < es.drop_last().len() && es.drop_last()[i].name == n;
                    assert(es[i].name == n);
                }
            }
        }
    }
}

/// Whether any already-kept entry carries name `n`.
fn out_has_name(out: &Vec<RomEntry>, n: &[u8]) -> (r: bool)
    ensures
        r == has_name(out@.map_values(|e: RomEntry| e@), n@),
{
    let ghost m = out@.map_values(|e: RomEntry| e@);
    let mut i: usize = 0;
    while i < out.len()
        invariant
            0 <= i <= out@.len(),
            m == out@.map_values(|e: RomEntry| e@),
            forall|j: int| 0 <= j < i ==> m[j].name != n@,
        decreases out@.len() - i,
    {
        if bytes_eq(out[i].name.as_slice(), n) {
            proof {
                assert(m[i as int].name == n@);
            }
            return true;
        }
        proof {
            assert(m[i as int] == out@[i as int]@);
        }
        i = i + 1;
    }
    false
}

/// Append `row` to `out`, keeping only first occurrences per entry name.
fn append_dedup(out: &mut Vec<RomEntry>, row: &Vec<RomEntry>, Ghost(seen): Ghost<Seq<EntryModel>>)
    requires
        old(out)@.map_values(|e: RomEntry| e@) == dedup_by_name(seen),
    ensures
        final(out)@.map_values(|e: RomEntry| e@) == dedup_by_name(
            seen + row@.map_values(|e: RomEntry| e@),
        ),
{
    let ghost rm = row@.map_values(|e: RomEntry| e@);
    let mut k: usize = 0;
    while k < row.len()
        invariant
            0 <= k <= row@.len(),
            rm == row@.map_values(|e: RomEntry| e@),
            out@.map_values(|e: RomEntry| e@) == dedup_by_name(seen + rm.take(k as int)),
        decreases row@.len() - k,
    {
        let e = &row[k];
        let ghost prefix = seen + rm.take(k as int);
        proof {
            assert((seen + rm.take(k + 1 as int)).drop_last() =~= prefix);
            assert((seen + rm.take(k + 1 as int)).last() == rm[k as int]);
            assert(rm[k as int] == row@[k as int]@);
            lemma_dedup_has_name(prefix, rm[k as int].name);
        }
        if !out_has_name(out, e.name.as_slice()) {
            let copy = e.duplicate();
            out.push(copy);
            proof {
                assert(out@.map_values(|e2: RomEntry| e2@) =~= dedup_by_name(prefix).push(
                    rm[k as int],
                ));
                assert(dedup_by_name(seen + rm.take(k + 1 as int)) == dedup_by_name(prefix).push(
                    rm[k as int],
                ));
            }
        } else {
            proof {
                assert(dedup_by_name(seen + rm.take(k + 1 as int)) == dedup_by_name(prefix));
            }
        }
        k = k + 1;
    }
    proof {
        assert(seen + rm.take(k as int) =~= seen + rm);
    }
}

/// The union lookup of one file's three digests: every entry declaring any of
/// them, first occurrence per entry name, sha1 row first, then md5, then crc.
pub open spec fn matches_spec(db: RomDb, s1: Seq<u8>, m5: Seq<u8>, crc: Seq<u8>) -> Seq<
    EntryModel,
> {
    dedup_by_name(db.lookup(s1) + db.lookup(m5) + db.lookup(crc))
}

/// All catalog entries matching any of the given digests, de-duplicated by
/// entry name across digest kinds.
pub fn find_matching_entries(rom_db: &RomDb, sha1: &[u8], md5: &[u8], crc: &[u8]) -> (r: Vec<
    RomEntry,
>)
    requires
        rom_db.wf(),
    ensures
        r@.map_values(|e: RomEntry| e@) == matches_spec(*rom_db, sha1@, md5@, crc@),
{
    let mut out: Vec<RomEntry> = Vec::new();
    proof {
        assert(out@.map_values(|e: RomEntry| e@) =~= Seq::<EntryModel>::empty());
        assert(dedup_by_name(Seq::<EntryModel>::empty()) =~= Seq::<EntryModel>::empty());
    }
    let ghost seen0 = Seq::<EntryModel>::empty();
    match rom_db.get(sha1) {
        Some(row) => {
            proof {
                assert(seen0 + row_model(row@) =~= row_model(row@));
                assert(row_model(row@) == row@.map_values(|e: RomEntry| e@));
            }
            append_dedup(&mut out, row, Ghost(seen0));
        },
        None => {
            proof {
                assert(rom_db.lookup(sha1@) =~= Seq::<EntryModel>::empty());
            }
        },
    }
    proof {
        assert(out@.map_values(|e: RomEntry| e@) == dedup_by_name(rom_db.lookup(sha1@)));
    }
    let ghost seen1 = rom_db.lookup(sha1@);
    match rom_db.get(md5) {
        Some(row) => {
            proof {
                assert(row_model(row@) == row@.map_values(|e: RomEntry| e@));
            }
            append_dedup(&mut out, row, Ghost(seen1));
        },
        None => {
            proof {
                assert(seen1 + rom_db.lookup(md5@) =~= seen1);
            }
        },
    }
    proof {
        assert(out@.map_values(|e: RomEntry| e@) == dedup_by_name(
            rom_db.lookup(sha1@) + rom_db.lookup(md5@),
        ));
    }
    let ghost seen2 = rom_db.lookup(sha1@) + rom_db.lookup(md5@);
    match rom_db.get(crc) {
        Some(row) => {
            proof {
                assert(row_model(row@) == row@.map_values(|e: RomEntry| e@));
            }
            append_dedup(&mut out, row, Ghost(seen2));
        },
        None => {
            proof {
                assert(seen2 + rom_db.lookup(crc@) =~= seen2);
            }
        },
    }
    proof {
        assert(out@.map_values(|e: RomEntry| e@) == matches_spec(*rom_db, sha1@, md5@, crc@));
    }
    out
}

// ---------------------------------------------------------------------------
// Set-type filtering (hierarchical catalogs)
// ---------------------------------------------------------------------------
/// Some matched entry belongs to game `g`.
pub open spec fn match_for_game(es: Seq<EntryModel>, g: Seq<u8>) -> bool {
    exists|i: int| 0 <= i < es.len() && es[i].game == g
}

/// Whether entry `e` of the match list survives set-type filtering.
/// Split: a clone defers to its parent when the parent also matches.
/// Merged: content always collapses to the parent.
pub open spec fn keep_entry(es: Seq<EntryModel>, dt: DatType, map: NameMap, e: EntryModel) -> bool {
    match dt {
        DatType::Split => match map.lookup(e.game) {
            Some(parent) => !match_for_game(es, parent),
            None => true,
        },
        DatType::Merged => !map.contains_key(e.game),
        _ => true,
    }
}

pub open spec fn kept_entries(es: Seq<EntryModel>, dt: DatType, map: NameMap, i: int) -> Seq<
    EntryModel,
>
    decreases i,
{
    if i <= 0 {
        Seq::<EntryModel>::empty()
    } else {
        let rest = kept_entries(es, dt, map, i - 1);
        if keep_entry(es, dt, map, es[i - 1]) {
            rest.push(es[i - 1])
        } else {
            rest
        }
    }
}

/// The match list after set-type filtering. Under Split, when every match is
/// clone-side the unfiltered list stands; Standard and NonMerged never filter.
pub open spec fn filter_spec(es: Seq<EntryModel>, dt: DatType, map: NameMap) -> Seq<EntryModel> {
    match dt {
        DatType::Split => {
            let kept = kept_entries(es, dt, map, es.len() as int);
            if kept.len() == 0 {
                es
            } else {
                kept
            }
        },
        DatType::Merged => kept_entries(es, dt, map, es.len() as int),
        _ => es,
    }
}

fn entries_match_game(entries: &Vec<RomEntry>, g: &[u8]) -> (r: bool)
    ensures
        r == match_for_game(entries@.map_values(|e: RomEntry| e@), g@),
{
    let ghost m = entries@.map_values(|e: RomEntry| e@);
    let mut i: usize = 0;
    while i < entries.len()
        invariant
            0 <= i <= entries@.len(),
            m == entries@.map_values(|e: RomEntry| e@),
            forall|j: int| 0 <= j < i ==> m[j].game != g@,
        decreases entries@.len() - i,
    {
        if bytes_eq(entries[i].game.as_slice(), g) {
            proof {
                assert(m[i as int].game == g@);
            }
            return true;
        }
        proof {
            assert(m[i as int] == entries@[i as int]@);
        }
        i = i + 1;
    }
    false
}

/// Apply the set-type rule of a hierarchical catalog to a match list.
pub fn filter_entries_by_set_type(
    entries: &Vec<RomEntry>,
    dat_type: &DatType,
    parent_clone_map: &NameMap,
) -> (r: Vec<RomEntry>)
    requires
        parent_clone_map.wf(),
    ensures
        r@.map_values(|e: RomEntry| e@) == filter_spec(
            entries@.map_values(|e: RomEntry| e@),
            *dat_type,
            *parent_clone_map,
        ),
{
    let ghost m = entries@.map_values(|e: RomEntry| e@);
    let dt: DatType = *dat_type;
    if dt == DatType::Standard || dt == DatType::NonMerged {
        let mut out: Vec<RomEntry> = Vec::new();
        let mut i: usize = 0;
        while i < entries.len()
            invariant
                0 <= i <= entries@.len(),
                m == entries@.map_values(|e: RomEntry| e@),
                out@.map_values(|e: RomEntry| e@) == m.take(i as int),
            decreases entries@.len() - i,
        {
            let copy = entries[i].duplicate();
            proof {
                assert(copy@ == m[i as int]);
                assert(m.take(i + 1 as int) =~= m.take(i as int).push(m[i as int]));
            }
            out.push(copy);
            proof {
                assert(out@.map_values(|e: RomEntry| e@) =~= m.take(i as int).push(
                    m[i as int],
                ));
            }
            i = i + 1;
        }
        proof {
            assert(m.take(i as int) =~= m);
        }
        return out;
    }
    let mut kept: Vec<RomEntry> = Vec::new();
    let mut i: usize = 0;
    proof {
        assert(kept@.map_values(|e: RomEntry| e@) =~= kept_entries(m, dt, *parent_clone_map, 0));
    }
    while i < entries.len()
        invariant
            0 <= i <= entries@.len(),
            m == entries@.map_values(|e: RomEntry| e@),
            dt == *dat_type,
            parent_clone_map.wf(),
            dt == DatType::Split || dt == DatType::Merged,
            kept@.map_values(|e: RomEntry| e@) == kept_entries(m, dt, *parent_clone_map, i as int),
        decreases entries@.len() - i,
    {
        let e = &entries[i];
        proof {
            assert(m[i as int] == entries@[i as int]@);
        }
        let keep: bool = if dt == DatType::Merged {
            match parent_clone_map.get(e.game.as_slice()) {
                Some(_) => false,
                None => true,
            }
        } else {
            match parent_clone_map.get(e.game.as_slice()) {
                Some(parent) => {
                    let parent_copy = copy_bytes(parent.as_slice());
                    !entries_match_game(entries, parent_copy.as_slice())
                },
                None => true,
            }
        };
        proof {
            assert(keep == keep_entry(m, dt, *parent_clone_map, m[i as int]));
        }
        if keep {
            let copy = e.duplicate();
            kept.push(copy);
            proof {
                assert(kept@.map_values(|e2: RomEntry| e2@) =~= kept_entries(
                    m,
                    dt,
                    *parent_clone_map,
                    i as int,
                ).push(m[i as int]));
            }
        }
        i = i + 1;
    }
    if dt == DatType::Split && kept.len() == 0 {
        let mut out: Vec<RomEntry> = Vec::new();
        let mut j: usize = 0;
        while j < entries.len()
            invariant
                0 <= j <= entries@.len(),
                m == entries@.map_values(|e: RomEntry| e@),
                out@.map_values(|e: RomEntry| e@) == m.take(j as int),
            decreases entries@.len() - j,
        {
            let copy = entries[j].duplicate();
            proof {
                assert(copy@ == m[j as int]);
                assert(m.take(j + 1 as int) =~= m.take(j as int).push(m[j as int]));
            }
            out.push(copy);
            proof {
                assert(out@.map_values(|e: RomEntry| e@) =~= m.take(j as int).push(
                    m[j as int],
                ));
            }
            j = j + 1;
        }
        proof {
            assert(m.take(j as int) =~= m);
        }
        out
    } else {
        kept
    }
}

// ---------------------------------------------------------------------------
// Destinations
// ---------------------------------------------------------------------------
/// Backslashes in a declared name become path separators.
pub open spec fn normalize_seps(s: Seq<u8>) -> Seq<u8> {
    s.map_values(|b: u8| if b == 92 { 47u8 } else { b })
}

pub open spec fn chd_suffix() -> Seq<u8> {
    seq![46u8, 99u8, 104u8, 100u8]
}

/// Destination of one entry: a disk image gets its own directory named after
/// the entry; a foldered entry sits under the game's directory, its declared
/// separators preserved as nested directories; a bare entry sits at the root.
pub open spec fn dest_spec(
    rom_dir: Seq<u8>,
    game: Seq<u8>,
    name: Seq<u8>,
    is_disk: bool,
    folder: bool,
) -> Seq<u8> {
    if is_disk {
        rom_dir + seq![47u8] + game + seq![47u8] + name + seq![47u8] + name + chd_suffix()
    } else if folder {
        rom_dir + seq![47u8] + game + seq![47u8] + normalize_seps(name)
    } else {
        rom_dir + seq![47u8] + name
    }
}

fn push_normalized(out: &mut Vec<u8>, s: &[u8])
    ensures
        final(out)@ == old(out)@ + normalize_seps(s@),
{
    let mut i: usize = 0;
    while i < s.len()
        invariant
            0 <= i <= s@.len(),
            out@ == old(out)@ + normalize_seps(s@.take(i as int)),
        decreases s@.len() - i,
    {
        let b = s[i];
        out.push(if b == 92 {
            47
        } else {
            b
        });
        proof {
            assert(old(out)@ + normalize_seps(s@.take(i + 1 as int)) =~= (old(out)@
                + normalize_seps(s@.take(i as int))).push(
                if s@[i as int] == 92 {
                    47u8
                } else {
                    s@[i as int]
                },
            ));
        }
        i = i + 1;
    }
    proof {
        assert(s@.take(i as int) =~= s@);
        assert(out@ =~= old(out)@ + normalize_seps(s@));
    }
}

/// Destination path of one entry, per `dest_spec`.
pub fn calculate_rom_path(
    rom_name: &[u8],
    game_name: &[u8],
    needs_folder: bool,
    rom_dir: &[u8],
    is_disk: bool,
) -> (r: Vec<u8>)
    ensures
        r@ == dest_spec(rom_dir@, game_name@, rom_name@, is_disk, needs_folder),
{
    let mut out: Vec<u8> = Vec::new();
    push_all(&mut out, rom_dir);
    out.push(47);
    if is_disk {
        push_all(&mut out, game_name);
        out.push(47);
        push_all(&mut out, rom_name);
        out.push(47);
        push_all(&mut out, rom_name);
        out.push(46);
        out.push(99);
        out.push(104);
        out.push(100);
        proof {
            assert(out@ =~= dest_spec(rom_dir@, game_name@, rom_name@, true, needs_folder));
        }
    } else if needs_folder {
        push_all(&mut out, game_name);
        out.push(47);
        push_normalized(&mut out, rom_name);
        proof {
            assert(out@ =~= dest_spec(rom_dir@, game_name@, rom_name@, false, true));
        }
    } else {
        push_all(&mut out, rom_name);
        proof {
            assert(out@ =~= dest_spec(rom_dir@, game_name@, rom_name@, false, false));
        }
    }
    out
}

// ---------------------------------------------------------------------------
// Per-file plans
// ---------------------------------------------------------------------------
/// One intended placement of a scanned file.
pub struct Placement {
    pub game: Vec<u8>,
    pub name: Vec<u8>,
    pub is_disk: bool,
    pub dest: Vec<u8>,
}

pub ghost struct PlacementModel {
    pub game: Seq<u8>,
    pub name: Seq<u8>,
    pub is_disk: bool,
    pub dest: Seq<u8>,
}

impl View for Placement {
    type V = PlacementModel;

    open spec fn view(&self) -> PlacementModel {
        PlacementModel { game: self.game@, name: self.name@, is_disk: self.is_disk, dest: self.dest@ }
    }
}

/// The placement an entry asks for, given the foldered-game set.
pub open spec fn placement_of(e: EntryModel, folders: GameSet, rom_dir: Seq<u8>) -> PlacementModel {
    PlacementModel {
        game: e.game,
        name: e.name,
        is_disk: e.is_disk,
        dest: dest_spec(rom_dir, e.game, e.name, e.is_disk, folders.has(e.game) || has_sep(e.name)),
    }
}

/// Placements of the matched entries whose game is present, in match order.
pub open spec fn plan_entries(
    es: Seq<EntryModel>,
    present: GameSet,
    folders: GameSet,
    rom_dir: Seq<u8>,
) -> Seq<PlacementModel>
    decreases es.len(),
{
    if es.len() == 0 {
        Seq::<PlacementModel>::empty()
    } else {
        let rest = plan_entries(es.drop_last(), present, folders, rom_dir);
        if present.has(es.last().game) {
            rest.push(placement_of(es.last(), folders, rom_dir))
        } else {
            rest
        }
    }
}

/// Everything the engine decides about one scanned file before any
/// file-system action: its name, its sha1, whether anything matched, and the
/// ordered placements to attempt.
pub struct FilePlan {
    pub filename: Vec<u8>,
    pub sha1: Vec<u8>,
    pub had_matches: bool,
    pub placements: Vec<Placement>,
}

pub ghost struct PlanModel {
    pub filename: Seq<u8>,
    pub sha1: Seq<u8>,
    pub had_matches: bool,
    pub placements: Seq<PlacementModel>,
}

impl View for FilePlan {
    type V = PlanModel;

    open spec fn view(&self) -> PlanModel {
        PlanModel {
            filename: self.filename@,
            sha1: self.sha1@,
            had_matches: self.had_matches,
            placements: self.placements@.map_values(|p: Placement| p@),
        }
    }
}

pub(crate) proof fn lemma_sep_bytes(n: Seq<u8>)
    ensures
        has_sep(n) == (crate::bytes::has_byte(n, 47) || crate::bytes::has_byte(n, 92)),
{
    if has_sep(n) {
        let i = choose|i: int| 0 <= i < n.len() && crate::rules::is_sep_byte(n[i]);
        if n[i] == 47 {
            assert(crate::bytes::has_byte(n, 47));
        } else {
            assert(crate::bytes::has_byte(n, 92));
        }
    }
    if crate::bytes::has_byte(n, 47) {
        let i = choose|i: int| 0 <= i < n.len() && n[i] == 47;
        assert(crate::rules::is_sep_byte(n[i]));
    }
    if crate::bytes::has_byte(n, 92) {
        let i = choose|i: int| 0 <= i < n.len() && n[i] == 92;
        assert(crate::rules::is_sep_byte(n[i]));
    }
}

/// Decide every placement of one scanned file: each matched entry of a
/// present game gets a destination; nothing is touched yet.
pub fn plan_file(
    file: &FileHash,
    games_with_files: &GameSet,
    games_needing_folders: &GameSet,
    config: &Config,
) -> (r: FilePlan)
    ensures
        r@.filename == base_component(file@.path),
        r@.sha1 == file@.sha1,
        r@.had_matches == (file@.matching_entries.len() > 0),
        r@.placements == plan_entries(
            file@.matching_entries,
            *games_with_files,
            *games_needing_folders,
            config@.rom_dir,
        ),
{
    let ghost em = file@.matching_entries;
    let filename = crate::rules::file_name_of(file.path.as_slice());
    let sha1 = copy_bytes(file.sha1.as_slice());
    let had_matches = file.matching_entries.len() > 0;
    let mut placements: Vec<Placement> = Vec::new();
    let mut i: usize = 0;
    proof {
        assert(placements@.map_values(|p: Placement| p@) =~= Seq::<PlacementModel>::empty());
        assert(em.take(0) =~= Seq::<EntryModel>::empty());
    }
    while i < file.matching_entries.len()
        invariant
            0 <= i <= file.matching_entries@.len(),
            em == file@.matching_entries,
            em.len() == file.matching_entries@.len(),
            placements@.map_values(|p: Placement| p@) == plan_entries(
                em.take(i as int),
                *games_with_files,
                *games_needing_folders,
                config@.rom_dir,
            ),
        decreases file.matching_entries@.len() - i,
    {
        let e = &file.matching_entries[i];
        proof {
            assert(e@ == em[i as int]);
            assert(em.take(i + 1 as int).drop_last() =~= em.take(i as int));
            assert(em.take(i + 1 as int).last() == em[i as int]);
        }
        if games_with_files.contains(e.game.as_slice()) {
            let folder = games_needing_folders.contains(e.game.as_slice()) || crate::bytes::contains_byte(
                e.name.as_slice(),
                47,
            ) || crate::bytes::contains_byte(e.name.as_slice(), 92);
            proof {
                lemma_sep_bytes(em[i as int].name);
            }
            let dest = calculate_rom_path(
                e.name.as_slice(),
                e.game.as_slice(),
                folder,
                config.rom_dir.as_slice(),
                e.is_disk,
            );
            let p = Placement {
                game: copy_bytes(e.game.as_slice()),
                name: copy_bytes(e.name.as_slice()),
                is_disk: e.is_disk,
                dest,
            };
            placements.push(p);
            proof {
                assert(placements@.map_values(|p2: Placement| p2@) =~= plan_entries(
                    em.take(i as int),
                    *games_with_files,
                    *games_needing_folders,
                    config@.rom_dir,
                ).push(placement_of(em[i as int], *games_needing_folders, config@.rom_dir)));
            }
        }
        i = i + 1;
    }
    proof {
        assert(em.take(i as int) =~= em);
    }
    FilePlan { filename, sha1, had_matches, placements }
}

// ---------------------------------------------------------------------------
// Outcome recording and the per-file decision
// ---------------------------------------------------------------------------
pub ghost enum Decision {
    Organized(Seq<u8>),
    Duplicate(Seq<u8>),
    Unknown(Seq<u8>),
}

impl View for ProcessResult {
    type V = Decision;

    open spec fn view(&self) -> Decision {
        match self {
            ProcessResult::Organized(g) => Decision::Organized(g@),
            ProcessResult::Duplicate(f) => Decision::Duplicate(f@),
            ProcessResult::Unknown(f) => Decision::Unknown(f@),
        }
    }
}

/// The (game, name) pairs of the placements that were performed, in order.
pub open spec fn performed_pairs(ps: Seq<PlacementModel>, os: Seq<bool>) -> Seq<(Seq<u8>, Seq<u8>)>
    decreases ps.len(),
{
    if ps.len() == 0 || os.len() != ps.len() {
        Seq::<(Seq<u8>, Seq<u8>)>::empty()
    } else {
        let rest = performed_pairs(ps.drop_last(), os.drop_last());
        if os.last() {
            rest.push((ps.last().game, ps.last().name))
        } else {
            rest
        }
    }
}

pub open spec fn count_true(os: Seq<bool>) -> nat
    decreases os.len(),
{
    if os.len() == 0 {
        0
    } else {
        count_true(os.drop_last()) + if os.last() {
            1nat
        } else {
            0
        }
    }
}

/// Game of the first performed placement at index `>= i`.
pub open spec fn first_performed(ps: Seq<PlacementModel>, os: Seq<bool>, i: int) -> Seq<u8>
    decreases ps.len() - i,
{
    if i < 0 || i >= ps.len() || i >= os.len() {
        Seq::<u8>::empty()
    } else if os[i] {
        ps[i].game
    } else {
        first_performed(ps, os, i + 1)
    }
}

/// The classification of one file, given which placements were performed:
/// no match at all, or no match for a present game, reports Unknown; at
/// least one performed placement reports Organized with the first game
/// served; a plan whose destinations all existed reports Duplicate.
pub open spec fn decide_spec(plan: PlanModel, os: Seq<bool>) -> Decision {
    if !plan.had_matches {
        Decision::Unknown(plan.filename)
    } else if plan.placements.len() == 0 {
        Decision::Unknown(plan.filename)
    } else if count_true(os) > 0 {
        Decision::Organized(first_performed(plan.placements, os, 0))
    } else {
        Decision::Duplicate(plan.filename)
    }
}

proof fn lemma_first_performed_at(ps: Seq<PlacementModel>, os: Seq<bool>, j: int, i: int)
    requires
        os.len() == ps.len(),
        0 <= j <= i < ps.len(),
        forall|k: int| j <= k < i ==> !os[k],
        os[i],
    ensures
        first_performed(ps, os, j) == ps[i].game,
    decreases i - j,
{
    if j < i {
        lemma_first_performed_at(ps, os, j + 1, i);
    }
}

/// With every destination already present (a re-run over an organized tree),
/// nothing is recorded and a planned file classifies as Duplicate.
pub proof fn lemma_rerun_is_duplicate(plan: PlanModel, os: Seq<bool>)
    requires
        os.len() == plan.placements.len(),
        forall|i: int| 0 <= i < os.len() ==> !os[i],
        plan.had_matches,
        plan.placements.len() > 0,
    ensures
        performed_pairs(plan.placements, os) == Seq::<(Seq<u8>, Seq<u8>)>::empty(),
        decide_spec(plan, os) == Decision::Duplicate(plan.filename),
{
    lemma_all_false(plan.placements, os);
}

proof fn lemma_all_false(ps: Seq<PlacementModel>, os: Seq<bool>)
    requires
        os.len() == ps.len(),
        forall|i: int| 0 <= i < os.len() ==> !os[i],
    ensures
        performed_pairs(ps, os) == Seq::<(Seq<u8>, Seq<u8>)>::empty(),
        count_true(os) == 0,
    decreases ps.len(),
{
    if ps.len() > 0 {
        assert(forall|i: int| 0 <= i < os.drop_last().len() ==> !os.drop_last()[i]);
        lemma_all_false(ps.drop_last(), os.drop_last());
        assert(!os.last());
    }
}

/// Record the performed placements of one planned file in the provenance
/// store and classify the file. `outcomes[i]` says whether placement `i` was
/// performed (its destination did not exist and the copy succeeded).
pub fn process_file(plan: &FilePlan, outcomes: &Vec<bool>, known_roms: &mut Store) -> (r:
    ProcessResult)
    requires
        old(known_roms).wf(),
        outcomes@.len() == plan.placements@.len(),
    ensures
        final(known_roms).wf(),
        final(known_roms).lookup(plan.sha1@) == old(known_roms).lookup(plan.sha1@)
            + performed_pairs(plan@.placements, outcomes@),
        forall|h: Seq<u8>|
            h != plan.sha1@ ==> #[trigger] final(known_roms).lookup(h) == old(
                known_roms,
            ).lookup(h),
        r@ == decide_spec(plan@, outcomes@),
{
    let ghost ps = plan@.placements;
    let ghost os = outcomes@;
    let mut organized_game: Vec<u8> = Vec::new();
    let mut placements_done: usize = 0;
    let mut i: usize = 0;
    proof {
        assert(ps.take(0) =~= Seq::<PlacementModel>::empty());
        assert(os.take(0) =~= Seq::<bool>::empty());
        assert(old(known_roms).lookup(plan.sha1@) + performed_pairs(ps.take(0), os.take(0))
            =~= old(known_roms).lookup(plan.sha1@));
    }
    while i < plan.placements.len()
        invariant
            0 <= i <= plan.placements@.len(),
            ps == plan@.placements,
            os == outcomes@,
            os.len() == ps.len(),
            ps.len() == plan.placements@.len(),
            known_roms.wf(),
            known_roms.lookup(plan.sha1@) == old(known_roms).lookup(plan.sha1@)
                + performed_pairs(ps.take(i as int), os.take(i as int)),
            forall|h: Seq<u8>|
                h != plan.sha1@ ==> #[trigger] known_roms.lookup(h) == old(known_roms).lookup(
                    h,
                ),
            placements_done <= i,
            placements_done == count_true(os.take(i as int)),
            placements_done == 0 ==> forall|j: int| 0 <= j < i ==> !os[j],
            placements_done > 0 ==> organized_game@ == first_performed(ps, os, 0),
        decreases plan.placements@.len() - i,
    {
        proof {
            assert(ps.take(i + 1 as int).drop_last() =~= ps.take(i as int));
            assert(os.take(i + 1 as int).drop_last() =~= os.take(i as int));
            assert(ps.take(i + 1 as int).last() == ps[i as int]);
            assert(os.take(i + 1 as int).last() == os[i as int]);
            assert(ps[i as int] == plan.placements@[i as int]@);
        }
        if outcomes[i] {
            let p = &plan.placements[i];
            if placements_done == 0 {
                organized_game = copy_bytes(p.game.as_slice());
                proof {
                    lemma_first_performed_at(ps, os, 0, i as int);
                }
            }
            known_roms.record(plan.sha1.as_slice(), p.game.as_slice(), p.name.as_slice());
            placements_done = placements_done + 1;
            proof {
                assert(known_roms.lookup(plan.sha1@) =~= old(known_roms).lookup(plan.sha1@)
                    + performed_pairs(ps.take(i + 1 as int), os.take(i + 1 as int)));
            }
        }
        i = i + 1;
    }
    proof {
        assert(ps.take(i as int) =~= ps);
        assert(os.take(i as int) =~= os);
    }
    if !plan.had_matches || plan.placements.len() == 0 {
        let f = copy_bytes(plan.filename.as_slice());
        ProcessResult::Unknown(f)
    } else if placements_done > 0 {
        ProcessResult::Organized(organized_game)
    } else {
        let f = copy_bytes(plan.filename.as_slice());
        ProcessResult::Duplicate(f)
    }
}

/// Every de-duplicated entry is one of the originals.
proof fn lemma_dedup_membership(es: Seq<EntryModel>, j: int)
    requires
        0 <= j < dedup_by_name(es).len(),
    ensures
        exists|i: int| 0 <= i < es.len() && es[i] == #[trigger] dedup_by_name(es)[j],
    decreases es.len(),
{
    if es.len() > 0 {
        let d = dedup_by_name(es);
        let dd = dedup_by_name(es.drop_last());
        if has_name(es.drop_last(), es.last().name) {
            lemma_dedup_membership(es.drop_last(), j);
            let i = choose|i: int| 0 <= i < es.drop_last().len() && es.drop_last()[i] == dd[j];
            assert(es[i] == d[j]);
        } else {
            if j < d.len() - 1 {
                lemma_dedup_membership(es.drop_last(), j);
                let i = choose|i: int|
                    0 <= i < es.drop_last().len() && es.drop_last()[i] == dd[j];
                assert(es[i] == d[j]);
            } else {
                assert(es[es.len() - 1] == d[j]);
            }
        }
    }
}

/// Every match of a union lookup is a declared entry of a catalog game:
/// with the index invariant of the parser, no match can name a game outside
/// the declared set.
pub proof fn lemma_matches_are_catalog_games(
    db: RomDb,
    games: GameSet,
    s1: Seq<u8>,
    m5: Seq<u8>,
    crc: Seq<u8>,
)
    requires
        crate::xml::indexed_entries_ok(db, games),
    ensures
        forall|j: int|
            0 <= j < matches_spec(db, s1, m5, crc).len() ==> games.has(
                #[trigger] matches_spec(db, s1, m5, crc)[j].game,
            ),
{
    let all = db.lookup(s1) + db.lookup(m5) + db.lookup(crc);
    assert forall|j: int|
        0 <= j < matches_spec(db, s1, m5, crc).len() implies games.has(
        #[trigger] matches_spec(db, s1, m5, crc)[j].game,
    ) by {
        lemma_dedup_membership(all, j);
        let i = choose|i: int| 0 <= i < all.len() && all[i] == matches_spec(db, s1, m5, crc)[j];
        if i < db.lookup(s1).len() {
            assert(all[i] == db.lookup(s1)[i]);
            assert(crate::xml::entry_ok(s1, db.lookup(s1)[i], games));
        } else if i < db.lookup(s1).len() + db.lookup(m5).len() {
            let k = i - db.lookup(s1).len();
            assert(all[i] == db.lookup(m5)[k]);
            assert(crate::xml::entry_ok(m5, db.lookup(m5)[k], games));
        } else {
            let k = i - db.lookup(s1).len() - db.lookup(m5).len();
            assert(all[i] == db.lookup(crc)[k]);
            assert(crate::xml::entry_ok(crc, db.lookup(crc)[k], games));
        }
    }
}

/// Every planned placement serves a game confirmed present by some file.
pub proof fn lemma_placements_serve_present_games(
    es: Seq<EntryModel>,
    present: GameSet,
    folders: GameSet,
    rom_dir: Seq<u8>,
    j: int,
)
    requires
        0 <= j < plan_entries(es, present, folders, rom_dir).len(),
    ensures
        present.has(plan_entries(es, present, folders, rom_dir)[j].game),
        exists|i: int|
            0 <= i < es.len() && #[trigger] es[i].game == plan_entries(
                es,
                present,
                folders,
                rom_dir,
            )[j].game,
    decreases es.len(),
{
    if es.len() > 0 {
        let p = plan_entries(es, present, folders, rom_dir);
        let rest = plan_entries(es.drop_last(), present, folders, rom_dir);
        if present.has(es.last().game) && j == p.len() - 1 {
            assert(p[j] == placement_of(es.last(), folders, rom_dir));
            assert(es[es.len() - 1].game == p[j].game);
        } else {
            lemma_placements_serve_present_games(es.drop_last(), present, folders, rom_dir, j);
            let i = choose|i: int|
                0 <= i < es.drop_last().len() && #[trigger] es.drop_last()[i].game == rest[j].game;
            assert(es[i].game == p[j].game);
        }
    }
}

/// The game a file is organized under is the game of one of its performed
/// placements.
pub proof fn lemma_organized_game_is_planned(plan: PlanModel, os: Seq<bool>)
    requires
        os.len() == plan.placements.len(),
        decide_spec(plan, os) is Organized,
    ensures
        exists|i: int|
            0 <= i < plan.placements.len() && os[i] && #[trigger] plan.placements[i].game
                == decide_spec(plan, os)->Organized_0,
{
    lemma_count_true_witness(os);
    let i = choose|i: int| 0 <= i < os.len() && os[i];
    lemma_first_performed_is_some(plan.placements, os, 0);
}

proof fn lemma_count_true_witness(os: Seq<bool>)
    requires
        count_true(os) > 0,
    ensures
        exists|i: int| 0 <= i < os.len() && os[i],
    decreases os.len(),
{
    if os.len() > 0 {
        if os.last() {
            assert(os[os.len() - 1]);
        } else {
            lemma_count_true_witness(os.drop_last());
            let i = choose|i: int| 0 <= i < os.drop_last().len() && os.drop_last()[i];
            assert(os[i]);
        }
    }
}

proof fn lemma_first_performed_is_some(ps: Seq<PlacementModel>, os: Seq<bool>, j: int)
    requires
        os.len() == ps.len(),
        0 <= j <= ps.len(),
        exists|i: int| j <= i < os.len() && os[i],
    ensures
        exists|i: int|
            j <= i < ps.len() && os[i] && #[trigger] ps[i].game == first_performed(ps, os, j),
    decreases ps.len() - j,
{
    let w = choose|i: int| j <= i < os.len() && os[i];
    if os[j] {
        assert(ps[j].game == first_performed(ps, os, j));
    } else {
        assert(w != j);
        lemma_first_performed_is_some(ps, os, j + 1);
        let i = choose|i: int|
            j + 1 <= i < ps.len() && os[i] && #[trigger] ps[i].game == first_performed(
                ps,
                os,
                j + 1,
            );
        assert(ps[i].game == first_performed(ps, os, j));
    }
}

// ---------------------------------------------------------------------------
// Run summary: have, missing, shared content
// ---------------------------------------------------------------------------
/// A provenance pair among rows before `i`, plus pairs before `k` in row `i`.
pub open spec fn pair_before(st: Store, i: int, k: int, i2: int, k2: int) -> bool {
    0 <= i2 < st.rows@.len() && 0 <= k2 < st.rows@[i2]@.len() && (i2 < i || (i2 == i && k2 < k))
}

spec fn store_game_upto(st: Store, g: Seq<u8>, i: int, k: int) -> bool {
    exists|i2: int, k2: int|
        #[trigger] pair_before(st, i, k, i2, k2) && st.rows@[i2]@[k2].0@ == g
}

/// The games already recorded by the provenance store.
pub fn initial_have(store: &Store) -> (r: GameSet)
    ensures
        r.wf(),
        forall|g: Seq<u8>| #[trigger] r.has(g) == store.has_game(g),
{
    let mut r = GameSet::new();
    let mut i: usize = 0;
    let rows: usize = store.rows.len();
    proof {
        assert forall|g: Seq<u8>| #[trigger] r.has(g) == store_game_upto(*store, g, 0, 0) by {
            if store_game_upto(*store, g, 0, 0) {
                let (i2, k2) = choose|i2: int, k2: int|
                    #[trigger] pair_before(*store, 0, 0, i2, k2) && store.rows@[i2]@[k2].0@ == g;
                assert(false);
            }
        }
    }
    while i < rows
        invariant
            0 <= i <= rows,
            rows == store.rows@.len(),
            r.wf(),
            forall|g: Seq<u8>| #[trigger] r.has(g) == store_game_upto(*store, g, i as int, 0),
        decreases rows - i,
    {
        let row_len: usize = store.rows[i].len();
        let mut k: usize = 0;
        proof {
            assert forall|g: Seq<u8>| #[trigger] r.has(g) == store_game_upto(
                *store,
                g,
                i as int,
                0,
            ) by {}
        }
        while k < row_len
            invariant
                0 <= i < rows,
                0 <= k <= row_len,
                rows == store.rows@.len(),
                row_len == store.rows@[i as int]@.len(),
                r.wf(),
                forall|g: Seq<u8>|
                    #[trigger] r.has(g) == store_game_upto(*store, g, i as int, k as int),
            decreases row_len - k,
        {
            let ghost before = r;
            let ghost pg = store.rows@[i as int]@[k as int].0@;
            r.insert(store.rows[i][k].0.as_slice());
            proof {
                assert(pair_before(*store, i as int, k + 1 as int, i as int, k as int));
                assert forall|g: Seq<u8>| #[trigger] r.has(g) == store_game_upto(
                    *store,
                    g,
                    i as int,
                    k + 1 as int,
                ) by {
                    if r.has(g) {
                        if g == pg {
                            assert(store_game_upto(*store, g, i as int, k + 1 as int));
                        } else {
                            assert(before.has(g));
                            let (i2, k2) = choose|i2: int, k2: int|
                                #[trigger] pair_before(*store, i as int, k as int, i2, k2)
                                    && store.rows@[i2]@[k2].0@ == g;
                            assert(pair_before(*store, i as int, k + 1 as int, i2, k2));
                        }
                    }
                    if store_game_upto(*store, g, i as int, k + 1 as int) {
                        let (i2, k2) = choose|i2: int, k2: int|
                            #[trigger] pair_before(*store, i as int, k + 1 as int, i2, k2)
                                && store.rows@[i2]@[k2].0@ == g;
                        if i2 == i && k2 == k {
                            assert(g == pg);
                            assert(r.has(g));
                        } else {
                            assert(pair_before(*store, i as int, k as int, i2, k2));
                            assert(before.has(g));
                        }
                    }
                }
            }
            k = k + 1;
        }
        proof {
            assert forall|g: Seq<u8>| #[trigger] r.has(g) == store_game_upto(
                *store,
                g,
                i + 1 as int,
                0,
            ) by {
                if r.has(g) {
                    let (i2, k2) = choose|i2: int, k2: int|
                        #[trigger] pair_before(*store, i as int, k as int, i2, k2)
                            && store.rows@[i2]@[k2].0@ == g;
                    assert(pair_before(*store, i + 1 as int, 0, i2, k2));
                }
                if store_game_upto(*store, g, i + 1 as int, 0) {
                    let (i2, k2) = choose|i2: int, k2: int|
                        #[trigger] pair_before(*store, i + 1 as int, 0, i2, k2)
                            && store.rows@[i2]@[k2].0@ == g;
                    assert(pair_before(*store, i as int, k as int, i2, k2));
                }
            }
        }
        i = i + 1;
    }
    proof {
        assert forall|g: Seq<u8>| #[trigger] r.has(g) == store.has_game(g) by {
            if r.has(g) {
                let (i2, k2) = choose|i2: int, k2: int|
                    #[trigger] pair_before(*store, i as int, 0, i2, k2)
                        && store.rows@[i2]@[k2].0@ == g;
                assert(store.has_game(g));
            }
            if store.has_game(g) {
                let (i2, k2) = choose|i2: int, k2: int|
                    0 <= i2 < store.rows@.len() && 0 <= k2 < store.rows@[i2]@.len()
                        && store.rows@[i2]@[k2].0@ == g;
                assert(pair_before(*store, i as int, 0, i2, k2));
            }
        }
    }
    r
}

/// The declared games not yet satisfied: `all_games` minus `have`.
pub fn compute_missing(all_games: &GameSet, have: &GameSet) -> (r: GameSet)
    requires
        all_games.wf(),
    ensures
        r.wf(),
        forall|g: Seq<u8>| #[trigger] r.has(g) == (all_games.has(g) && !have.has(g)),
{
    let mut r = GameSet::new();
    let mut i: usize = 0;
    let total: usize = all_games.items.len();
    while i < total
        invariant
            0 <= i <= total,
            total == all_games.items@.len(),
            all_games.wf(),
            r.wf(),
            forall|g: Seq<u8>|
                #[trigger] r.has(g) == (exists|j: int|
                    0 <= j < i && all_games.items@[j]@ == g && !have.has(g)),
        decreases total - i,
    {
        let g = &all_games.items[i];
        if !have.contains(g.as_slice()) {
            r.insert(g.as_slice());
        }
        proof {
            assert forall|g2: Seq<u8>| #[trigger] r.has(g2) == (exists|j: int|
                0 <= j < i + 1 && all_games.items@[j]@ == g2 && !have.has(g2)) by {
                if r.has(g2) {
                    if g2 == g@ && !have.has(g@) {
                        assert(all_games.items@[i as int]@ == g2);
                    } else {
                        let j = choose|j: int|
                            0 <= j < i && all_games.items@[j]@ == g2 && !have.has(g2);
                        assert(0 <= j < i + 1 && all_games.items@[j]@ == g2);
                    }
                }
                if exists|j: int| 0 <= j < i + 1 && all_games.items@[j]@ == g2 && !have.has(g2) {
                    let j = choose|j: int|
                        0 <= j < i + 1 && all_games.items@[j]@ == g2 && !have.has(g2);
                    if j == i {
                        assert(g2 == g@);
                        assert(r.has(g2));
                    }
                }
            }
        }
        i = i + 1;
    }
    proof {
        assert forall|g: Seq<u8>| #[trigger] r.has(g) == (all_games.has(g) && !have.has(g)) by {
            if all_games.has(g) && !have.has(g) {
                let j = choose|j: int|
                    0 <= j < all_games.items@.len() && all_games.items@[j]@ == g;
            }
        }
    }
    r
}

/// The declared games among `set`: membership in both. Seeding a run's
/// satisfied set from a stored record goes through this, so a stale record
/// cannot report an undeclared game as held.
pub fn intersect_games(set: &GameSet, allowed: &GameSet) -> (r: GameSet)
    requires
        set.wf(),
    ensures
        r.wf(),
        forall|g: Seq<u8>| #[trigger] r.has(g) == (set.has(g) && allowed.has(g)),
{
    let mut r = GameSet::new();
    let mut i: usize = 0;
    let total: usize = set.items.len();
    while i < total
        invariant
            0 <= i <= total,
            total == set.items@.len(),
            set.wf(),
            r.wf(),
            forall|g: Seq<u8>|
                #[trigger] r.has(g) == (exists|j: int|
                    0 <= j < i && set.items@[j]@ == g && allowed.has(g)),
        decreases total - i,
    {
        let g = &set.items[i];
        if allowed.contains(g.as_slice()) {
            r.insert(g.as_slice());
        }
        proof {
            assert forall|g2: Seq<u8>| #[trigger] r.has(g2) == (exists|j: int|
                0 <= j < i + 1 && set.items@[j]@ == g2 && allowed.has(g2)) by {
                if r.has(g2) {
                    if g2 == g@ && allowed.has(g@) {
                        assert(set.items@[i as int]@ == g2);
                    } else {
                        let j = choose|j: int|
                            0 <= j < i && set.items@[j]@ == g2 && allowed.has(g2);
                        assert(0 <= j < i + 1 && set.items@[j]@ == g2);
                    }
                }
                if exists|j: int| 0 <= j < i + 1 && set.items@[j]@ == g2 && allowed.has(g2) {
                    let j = choose|j: int|
                        0 <= j < i + 1 && set.items@[j]@ == g2 && allowed.has(g2);
                    if j == i {
                        assert(g2 == g@);
                        assert(r.has(g2));
                    }
                }
            }
        }
        i = i + 1;
    }
    proof {
        assert forall|g: Seq<u8>| #[trigger] r.has(g) == (set.has(g) && allowed.has(g)) by {
            if set.has(g) && allowed.has(g) {
                let j = choose|j: int| 0 <= j < set.items@.len() && set.items@[j]@ == g;
            }
        }
    }
    r
}

/// have and missing partition the declared games exactly: when every game of
/// `have` is declared and `missing` is the difference, each declared game
/// lies in exactly one of the two sets.
pub proof fn lemma_have_missing_partition(all_games: GameSet, have: GameSet, missing: GameSet)
    requires
        forall|g: Seq<u8>| #[trigger] missing.has(g) == (all_games.has(g) && !have.has(g)),
        forall|g: Seq<u8>| #[trigger] have.has(g) ==> all_games.has(g),
    ensures
        forall|g: Seq<u8>| #[trigger] all_games.has(g) == (have.has(g) || missing.has(g)),
        forall|g: Seq<u8>| !(#[trigger] have.has(g) && missing.has(g)),
{
}

/// Digest to distinct games sharing it, for digests recorded for two or more
/// distinct games.
pub struct SharedRoms {
    pub hashes: Vec<Vec<u8>>,
    pub games: Vec<GameSet>,
}

impl SharedRoms {
    pub open spec fn wf(self) -> bool {
        &&& self.hashes@.len() == self.games@.len()
        &&& forall|i: int, j: int|
            0 <= i < j < self.hashes@.len() ==> self.hashes@[i]@ != self.hashes@[j]@
        &&& forall|i: int| 0 <= i < self.games@.len() ==> (#[trigger] self.games@[i]).wf()
    }

    pub open spec fn contains_hash(self, h: Seq<u8>) -> bool {
        exists|i: int| 0 <= i < self.hashes@.len() && self.hashes@[i]@ == h
    }

    pub open spec fn idx_of(self, h: Seq<u8>) -> int {
        choose|i: int| 0 <= i < self.hashes@.len() && self.hashes@[i]@ == h
    }

    pub open spec fn games_at(self, h: Seq<u8>) -> GameSet {
        self.games@[self.idx_of(h)]
    }

    pub fn len(&self) -> (r: usize)
        ensures
            r == self.hashes@.len(),
    {
        self.hashes.len()
    }

    pub fn is_empty(&self) -> (r: bool)
        ensures
            r == (self.hashes@.len() == 0),
    {
        self.hashes.len() == 0
    }

    /// The games recorded as sharing digest `h`, if it is shared.
    pub fn games_for(&self, h: &[u8]) -> (r: Option<&GameSet>)
        requires
            self.wf(),
        ensures
            match r {
                Some(gs) => self.contains_hash(h@) && *gs == self.games_at(h@),
                None => !self.contains_hash(h@),
            },
    {
        let mut i: usize = 0;
        let n: usize = self.hashes.len();
        while i < n
            invariant
                0 <= i <= n,
                n == self.hashes@.len(),
                self.wf(),
                forall|j: int| 0 <= j < i ==> self.hashes@[j]@ != h@,
            decreases n - i,
        {
            if bytes_eq(self.hashes[i].as_slice(), h) {
                proof {
                    lemma_shared_unique(*self, h@, i as int);
                }
                return Some(&self.games[i]);
            }
            i = i + 1;
        }
        None
    }
}

proof fn lemma_shared_unique(sr: SharedRoms, h: Seq<u8>, i: int)
    requires
        sr.wf(),
        0 <= i < sr.hashes@.len(),
        sr.hashes@[i]@ == h,
    ensures
        sr.idx_of(h) == i,
        sr.contains_hash(h),
{
    assert(sr.contains_hash(h));
    let j = sr.idx_of(h);
    assert(0 <= j < sr.hashes@.len() && sr.hashes@[j]@ == h);
    if j < i {
        assert(sr.hashes@[j]@ != sr.hashes@[i]@);
    } else if i < j {
        assert(sr.hashes@[i]@ != sr.hashes@[j]@);
    }
}

/// The distinct games of one provenance row.
fn games_of_row(row: &Vec<(Vec<u8>, Vec<u8>)>) -> (r: GameSet)
    ensures
        r.wf(),
        forall|g: Seq<u8>|
            #[trigger] r.has(g) == crate::store::row_has_game(crate::store::prow_model(row@), g),
        r.card() <= row@.len(),
{
    let ghost rm = crate::store::prow_model(row@);
    let mut r = GameSet::new();
    let mut k: usize = 0;
    while k < row.len()
        invariant
            0 <= k <= row@.len(),
            rm == crate::store::prow_model(row@),
            r.wf(),
            r.card() <= k,
            forall|g: Seq<u8>|
                #[trigger] r.has(g) == (exists|k2: int| 0 <= k2 < k && rm[k2].0 == g),
        decreases row@.len() - k,
    {
        let ghost before = r;
        r.insert(row[k].0.as_slice());
        proof {
            assert(rm[k as int].0 == row@[k as int].0@);
            assert forall|g: Seq<u8>| #[trigger] r.has(g) == (exists|k2: int|
                0 <= k2 < k + 1 && rm[k2].0 == g) by {
                if r.has(g) {
                    if g == rm[k as int].0 {
                        assert(0 <= k < k + 1 && rm[k as int].0 == g);
                    } else {
                        assert(before.has(g));
                        let k2 = choose|k2: int| 0 <= k2 < k && rm[k2].0 == g;
                    }
                }
                if exists|k2: int| 0 <= k2 < k + 1 && rm[k2].0 == g {
                    let k2 = choose|k2: int| 0 <= k2 < k + 1 && rm[k2].0 == g;
                    if k2 == k {
                        assert(g == rm[k as int].0);
                        assert(r.has(g));
                    }
                }
            }
        }
        k = k + 1;
    }
    proof {
        assert forall|g: Seq<u8>| #[trigger] r.has(g) == crate::store::row_has_game(rm, g) by {}
    }
    r
}

/// The shared-content report of a provenance store: exactly the digests
/// recorded for at least two distinct games, each carrying exactly the set
/// of games recorded for it.
pub fn shared_roms_of(store: &Store) -> (r: SharedRoms)
    requires
        store.wf(),
    ensures
        r.wf(),
        forall|h: Seq<u8>|
            #[trigger] r.contains_hash(h) == (store.contains_hash(h) && crate::store::two_games(
                store.lookup(h),
            )),
        forall|h: Seq<u8>, g: Seq<u8>|
            r.contains_hash(h) ==> (#[trigger] r.games_at(h).has(g)
                == crate::store::row_has_game(store.lookup(h), g)),
{
    let mut r = SharedRoms { hashes: Vec::new(), games: Vec::new() };
    let mut i: usize = 0;
    let rows: usize = store.hashes.len();
    while i < rows
        invariant
            0 <= i <= rows,
            rows == store.hashes@.len(),
            store.wf(),
            r.wf(),
            forall|a: int|
                0 <= a < r.hashes@.len() ==> exists|j: int|
                    0 <= j < i && #[trigger] r.hashes@[a]@ == store.hashes@[j]@,
            forall|h: Seq<u8>|
                #[trigger] r.contains_hash(h) == ((exists|j: int|
                    0 <= j < i && store.hashes@[j]@ == h) && store.contains_hash(h)
                    && crate::store::two_games(store.lookup(h))),
            forall|h: Seq<u8>, g: Seq<u8>|
                r.contains_hash(h) ==> (#[trigger] r.games_at(h).has(g)
                    == crate::store::row_has_game(store.lookup(h), g)),
        decreases rows - i,
    {
        let ghost pre = r;
        let ghost h_i = store.hashes@[i as int]@;
        proof {
            crate::store::lemma_store_index(*store, h_i, i as int);
        }
        let gs = games_of_row(&store.rows[i]);
        proof {
            assert(crate::store::prow_model(store.rows@[i as int]@) == store.lookup(h_i));
        }
        if gs.len() >= 2 {
            proof {
                assert(gs.items@[0]@ != gs.items@[1]@);
                assert(gs.has(gs.items@[0]@));
                assert(gs.has(gs.items@[1]@));
                let ka = choose|k2: int|
                    0 <= k2 < store.lookup(h_i).len() && store.lookup(h_i)[k2].0
                        == gs.items@[0]@;
                let kb = choose|k2: int|
                    0 <= k2 < store.lookup(h_i).len() && store.lookup(h_i)[k2].0
                        == gs.items@[1]@;
                assert(crate::store::two_games(store.lookup(h_i)));
            }
            r.hashes.push(copy_bytes(store.hashes[i].as_slice()));
            r.games.push(gs);
            proof {
                let m = pre.hashes@.len() as int;
                assert(r.hashes@[m]@ == h_i);
                assert forall|a: int, b: int|
                    0 <= a < b < r.hashes@.len() implies r.hashes@[a]@ != r.hashes@[b]@ by {
                    if b == m {
                        assert(r.hashes@[a]@ == pre.hashes@[a]@);
                        let j = choose|j: int|
                            0 <= j < i && #[trigger] pre.hashes@[a]@ == store.hashes@[j]@;
                        assert(store.hashes@[j]@ != store.hashes@[i as int]@);
                    } else {
                        assert(r.hashes@[a]@ == pre.hashes@[a]@);
                        assert(r.hashes@[b]@ == pre.hashes@[b]@);
                    }
                }
                assert(r.wf());
                lemma_shared_unique(r, h_i, m);
                assert forall|a: int|
                    0 <= a < r.hashes@.len() implies exists|j: int|
                    0 <= j < i + 1 && #[trigger] r.hashes@[a]@ == store.hashes@[j]@ by {
                    if a == m {
                        assert(r.hashes@[a]@ == store.hashes@[i as int]@);
                    } else {
                        let j = choose|j: int|
                            0 <= j < i && #[trigger] pre.hashes@[a]@ == store.hashes@[j]@;
                        assert(r.hashes@[a]@ == store.hashes@[j]@);
                    }
                }
                assert forall|h: Seq<u8>| #[trigger] r.contains_hash(h) == ((exists|j: int|
                    0 <= j < i + 1 && store.hashes@[j]@ == h) && store.contains_hash(h)
                    && crate::store::two_games(store.lookup(h))) by {
                    if r.contains_hash(h) {
                        let a = choose|a: int|
                            0 <= a < r.hashes@.len() && r.hashes@[a]@ == h;
                        if a == m {
                            assert(store.hashes@[i as int]@ == h);
                        } else {
                            assert(pre.contains_hash(h));
                        }
                    } else {
                        if (exists|j: int| 0 <= j < i + 1 && store.hashes@[j]@ == h)
                            && store.contains_hash(h) && crate::store::two_games(
                            store.lookup(h),
                        ) {
                            let j = choose|j: int| 0 <= j < i + 1 && store.hashes@[j]@ == h;
                            if j == i {
                                assert(r.hashes@[m]@ == h);
                            } else {
                                assert(pre.contains_hash(h));
                                let a = choose|a: int|
                                    0 <= a < pre.hashes@.len() && pre.hashes@[a]@ == h;
                                assert(r.hashes@[a]@ == h);
                            }
                            assert(false);
                        }
                    }
                }
                assert forall|h: Seq<u8>, g: Seq<u8>|
                    r.contains_hash(h) implies (#[trigger] r.games_at(h).has(g)
                    == crate::store::row_has_game(store.lookup(h), g)) by {
                    let a = choose|a: int| 0 <= a < r.hashes@.len() && r.hashes@[a]@ == h;
                    lemma_shared_unique(r, h, a);
                    if a == m {
                        assert(r.games_at(h) == gs);
                        assert(h == h_i);
                    } else {
                        assert(pre.hashes@[a]@ == h);
                        lemma_shared_unique(pre, h, a);
                        assert(r.games_at(h) == pre.games_at(h));
                        assert(pre.contains_hash(h));
                    }
                }
            }
        } else {
            proof {
                assert(!crate::store::two_games(store.lookup(h_i))) by {
                    if crate::store::two_games(store.lookup(h_i)) {
                        let (k1, k2) = choose|k1: int, k2: int|
                            0 <= k1 < store.lookup(h_i).len() && 0 <= k2 < store.lookup(
                                h_i,
                            ).len() && store.lookup(h_i)[k1].0 != store.lookup(h_i)[k2].0;
                        assert(gs.has(store.lookup(h_i)[k1].0));
                        assert(gs.has(store.lookup(h_i)[k2].0));
                        let a1 = choose|a: int|
                            0 <= a < gs.items@.len() && gs.items@[a]@ == store.lookup(
                                h_i,
                            )[k1].0;
                        let a2 = choose|a: int|
                            0 <= a < gs.items@.len() && gs.items@[a]@ == store.lookup(
                                h_i,
                            )[k2].0;
                        assert(a1 != a2);
                        assert(gs.items@.len() >= 2);
                    }
                }
                assert forall|h: Seq<u8>| #[trigger] r.contains_hash(h) == ((exists|j: int|
                    0 <= j < i + 1 && store.hashes@[j]@ == h) && store.contains_hash(h)
                    && crate::store::two_games(store.lookup(h))) by {
                    if !r.contains_hash(h) {
                        if (exists|j: int| 0 <= j < i + 1 && store.hashes@[j]@ == h)
                            && store.contains_hash(h) && crate::store::two_games(
                            store.lookup(h),
                        ) {
                            let j = choose|j: int| 0 <= j < i + 1 && store.hashes@[j]@ == h;
                            if j == i {
                                assert(h == h_i);
                                assert(false);
                            } else {
                                assert(false);
                            }
                        }
                    }
                }
            }
        }
        i = i + 1;
    }
    proof {
        assert forall|h: Seq<u8>| #[trigger] r.contains_hash(h) == (store.contains_hash(h)
            && crate::store::two_games(store.lookup(h))) by {
            if store.contains_hash(h) && crate::store::two_games(store.lookup(h)) {
                let j = choose|j: int|
                    0 <= j < store.hashes@.len() && store.hashes@[j]@ == h;
            }
        }
    }
    r
}

/// Per-run result of a scan-and-organize pass.
pub struct ScanResult {
    pub have: GameSet,
    pub missing: GameSet,
    pub duplicate: Vec<Vec<u8>>,
    pub unknown: Vec<Vec<u8>>,
    pub shared_roms: SharedRoms,
}

impl ScanResult {
    /// An empty result: nothing found, nothing missing, nothing shared.
    pub fn new() -> (r: ScanResult)
        ensures
            r.have.wf(),
            r.have.card() == 0,
            r.missing.wf(),
            r.missing.card() == 0,
            r.duplicate@.len() == 0,
            r.unknown@.len() == 0,
            r.shared_roms.hashes@.len() == 0,
    {
        ScanResult {
            have: GameSet::new(),
            missing: GameSet::new(),
            duplicate: Vec::new(),
            unknown: Vec::new(),
            shared_roms: SharedRoms { hashes: Vec::new(), games: Vec::new() },
        }
    }
}

/// The games that any scanned file matches: a game contributes to `have`
/// only once some file on disk confirms it.
pub fn collect_games(file_hashes: &Vec<FileHash>) -> (r: GameSet)
    ensures
        r.wf(),
        forall|g: Seq<u8>|
            #[trigger] r.has(g) == exists|f: int, e: int|
                0 <= f < file_hashes@.len() && 0 <= e
                    < file_hashes@[f].matching_entries@.len()
                    && file_hashes@[f].matching_entries@[e]@.game == g,
{
    let mut r = GameSet::new();
    let mut f: usize = 0;
    let total: usize = file_hashes.len();
    while f < total
        invariant
            0 <= f <= total,
            total == file_hashes@.len(),
            r.wf(),
            forall|g: Seq<u8>|
                #[trigger] r.has(g) == exists|f2: int, e2: int|
                    0 <= f2 < f && 0 <= e2 < file_hashes@[f2].matching_entries@.len()
                        && file_hashes@[f2].matching_entries@[e2]@.game == g,
        decreases total - f,
    {
        let entries_len: usize = file_hashes[f].matching_entries.len();
        let mut e: usize = 0;
        while e < entries_len
            invariant
                0 <= f < total,
                0 <= e <= entries_len,
                total == file_hashes@.len(),
                entries_len == file_hashes@[f as int].matching_entries@.len(),
                r.wf(),
                forall|g: Seq<u8>|
                    #[trigger] r.has(g) == ((exists|f2: int, e2: int|
                        0 <= f2 < f && 0 <= e2 < file_hashes@[f2].matching_entries@.len()
                            && file_hashes@[f2].matching_entries@[e2]@.game == g) || (
                    exists|e2: int|
                        0 <= e2 < e && file_hashes@[f as int].matching_entries@[e2]@.game
                            == g)),
            decreases entries_len - e,
        {
            let ghost before = r;
            let ghost eg = file_hashes@[f as int].matching_entries@[e as int]@.game;
            r.insert(file_hashes[f].matching_entries[e].game.as_slice());
            proof {
                assert forall|g: Seq<u8>| #[trigger] r.has(g) == ((exists|f2: int, e2: int|
                    0 <= f2 < f && 0 <= e2 < file_hashes@[f2].matching_entries@.len()
                        && file_hashes@[f2].matching_entries@[e2]@.game == g) || (
                exists|e2: int|
                    0 <= e2 < e + 1 && file_hashes@[f as int].matching_entries@[e2]@.game
                        == g)) by {
                    if r.has(g) {
                        if g == eg {
                            assert(file_hashes@[f as int].matching_entries@[e as int]@.game
                                == g);
                        } else {
                            assert(before.has(g));
                        }
                    }
                    if exists|e2: int|
                        0 <= e2 < e + 1 && file_hashes@[f as int].matching_entries@[e2]@.game
                            == g {
                        let e2 = choose|e2: int|
                            0 <= e2 < e + 1
                                && file_hashes@[f as int].matching_entries@[e2]@.game == g;
                        if e2 == e {
                            assert(g == eg);
                            assert(r.has(g));
                        }
                    }
                }
            }
            e = e + 1;
        }
        proof {
            assert forall|g: Seq<u8>| #[trigger] r.has(g) == exists|f2: int, e2: int|
                0 <= f2 < f + 1 && 0 <= e2 < file_hashes@[f2].matching_entries@.len()
                    && file_hashes@[f2].matching_entries@[e2]@.game == g by {
                if r.has(g) {
                    if exists|e2: int|
                        0 <= e2 < e && file_hashes@[f as int].matching_entries@[e2]@.game
                            == g {
                        let e2 = choose|e2: int|
                            0 <= e2 < e && file_hashes@[f as int].matching_entries@[e2]@.game
                                == g;
                        assert(0 <= f < f + 1 && 0 <= e2
                            < file_hashes@[f as int].matching_entries@.len());
                    }
                }
                if exists|f2: int, e2: int|
                    0 <= f2 < f + 1 && 0 <= e2 < file_hashes@[f2].matching_entries@.len()
                        && file_hashes@[f2].matching_entries@[e2]@.game == g {
                    let (f2, e2) = choose|f2: int, e2: int|
                        0 <= f2 < f + 1 && 0 <= e2 < file_hashes@[f2].matching_entries@.len()
                            && file_hashes@[f2].matching_entries@[e2]@.game == g;
                    if f2 == f {
                        assert(r.has(g));
                    }
                }
            }
        }
        f = f + 1;
    }
    r
}

/// The engine of a standard catalog: the run configuration and the
/// foldered-game classification, computed once per run from the index.
pub struct Organizer {
    pub config: Config,
    pub games_needing_folders: GameSet,
}

impl Organizer {
    pub fn new(config: Config, rom_db: &RomDb) -> (r: Organizer)
        ensures
            r.config == config,
            r.games_needing_folders.wf(),
            forall|g: Seq<u8>|
                #[trigger] r.games_needing_folders.has(g) == (crate::rules::db_has_game(
                    *rom_db,
                    g,
                ) && needs_folder_spec(*rom_db, g, stops_model(config.stop_words@))),
    {
        let games_needing_folders = crate::rules::identify_games_needing_folders(rom_db, &config);
        Organizer { config, games_needing_folders }
    }

    /// The set of games needing folders.
    pub fn games_needing_folders(&self) -> (r: &GameSet)
        ensures
            r == &self.games_needing_folders,
    {
        &self.games_needing_folders
    }
}

} // verus!
