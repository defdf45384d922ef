//! Hierarchical-catalog organizer: a per-run plan from digest to one
//! destination, honoring the set-type convention and the parent/clone map.

use vstd::prelude::*;
use crate::bytes::{contains_byte, copy_bytes};
use crate::config::Config;
use crate::db::{GameSet, RomDb};
use crate::engine::{calculate_rom_path, dest_spec};
use crate::rules::has_sep;
use crate::store::NameMap;
use crate::types::{DatType, EntryModel, FileHash, RomEntry};

verus! {

/// Saturating increment; counts cap instead of wrapping.
pub open spec fn sat_inc(x: u64) -> u64 {
    if x < 0xffff_ffff_ffff_ffff {
        (x + 1) as u64
    } else {
        x
    }
}

/// Count of entries of game `g` among the first `k` of `row`, on top of `acc`.
pub open spec fn row_count_from(row: Seq<RomEntry>, g: Seq<u8>, k: int, acc: u64) -> u64
    decreases k,
{
    if k <= 0 {
        acc
    } else {
        let prev = row_count_from(row, g, k - 1, acc);
        if row[k - 1]@.game == g {
            sat_inc(prev)
        } else {
            prev
        }
    }
}

/// Count of catalog entries of game `g` among the first `i` index rows.
pub open spec fn db_count(db: RomDb, g: Seq<u8>, i: int) -> u64
    decreases i,
{
    if i <= 0 {
        0
    } else {
        row_count_from(db.rows@[i - 1]@, g, db.rows@[i - 1]@.len() as int, db_count(db, g, i - 1))
    }
}

/// Count of matched entries of game `g` among the first `f` scanned files.
pub open spec fn file_count(files: Seq<FileHash>, g: Seq<u8>, f: int) -> u64
    decreases f,
{
    if f <= 0 {
        0
    } else {
        row_count_from(
            files[f - 1].matching_entries@,
            g,
            files[f - 1].matching_entries@.len() as int,
            file_count(files, g, f - 1),
        )
    }
}

/// The user is judged to hold game `g` when the scanned files cover more
/// than forty percent of the game's declared entries.
pub open spec fn user_has_game(db: RomDb, files: Seq<FileHash>, g: Seq<u8>) -> bool {
    let fc = file_count(files, g, files.len() as int);
    let tc = db_count(db, g, db.rows@.len() as int);
    let floor = if tc == 0 {
        1u64
    } else {
        tc
    };
    10 * (fc as nat) > 4 * (floor as nat)
}

fn count_in_row(row: &Vec<RomEntry>, g: &[u8], acc: u64) -> (r: u64)
    ensures
        r == row_count_from(row@, g@, row@.len() as int, acc),
{
    let mut c: u64 = acc;
    let mut k: usize = 0;
    while k < row.len()
        invariant
            0 <= k <= row@.len(),
            c == row_count_from(row@, g@, k as int, acc),
        decreases row@.len() - k,
    {
        if crate::bytes::bytes_eq(row[k].game.as_slice(), g) {
            if c < 0xffff_ffff_ffff_ffff {
                c = c + 1;
            }
        }
        k = k + 1;
    }
    c
}

fn total_count_of(db: &RomDb, g: &[u8]) -> (r: u64)
    ensures
        r == db_count(*db, g@, db.rows@.len() as int),
{
    let mut c: u64 = 0;
    let mut i: usize = 0;
    let rows: usize = db.rows.len();
    while i < rows
        invariant
            0 <= i <= rows,
            rows == db.rows@.len(),
            c == db_count(*db, g@, i as int),
        decreases rows - i,
    {
        c = count_in_row(&db.rows[i], g, c);
        i = i + 1;
    }
    c
}

fn file_count_of(files: &Vec<FileHash>, g: &[u8]) -> (r: u64)
    ensures
        r == file_count(files@, g@, files@.len() as int),
{
    let mut c: u64 = 0;
    let mut f: usize = 0;
    let total: usize = files.len();
    while f < total
        invariant
            0 <= f <= total,
            total == files@.len(),
            c == file_count(files@, g@, f as int),
        decreases total - f,
    {
        c = count_in_row(&files[f].matching_entries, g, c);
        f = f + 1;
    }
    c
}

/// Entries of game `g` among the first `k` of one row, in order.
pub open spec fn row_game_entries(row: Seq<RomEntry>, g: Seq<u8>, k: int) -> Seq<EntryModel>
    decreases k,
{
    if k <= 0 {
        Seq::<EntryModel>::empty()
    } else {
        row_game_entries(row, g, k - 1) + if row[k - 1]@.game == g {
            seq![row[k - 1]@]
        } else {
            Seq::<EntryModel>::empty()
        }
    }
}

/// Entries of game `g` among the first `i` index rows, in index order.
pub open spec fn game_entries_upto(db: RomDb, g: Seq<u8>, i: int) -> Seq<EntryModel>
    decreases i,
{
    if i <= 0 {
        Seq::<EntryModel>::empty()
    } else {
        game_entries_upto(db, g, i - 1) + row_game_entries(
            db.rows@[i - 1]@,
            g,
            db.rows@[i - 1]@.len() as int,
        )
    }
}

/// All entries declared by game `g`, in index order.
pub open spec fn game_entries(db: RomDb, g: Seq<u8>) -> Seq<EntryModel> {
    game_entries_upto(db, g, db.rows@.len() as int)
}

/// Under Split, a clone's requirement list continues into its parent chain,
/// bounded by the map size.
pub open spec fn chain_entries(
    db: RomDb,
    pcm: NameMap,
    g: Seq<u8>,
    dt: DatType,
    fuel: nat,
) -> Seq<EntryModel>
    decreases fuel,
{
    let own = game_entries(db, g);
    if dt == DatType::Split && fuel > 0 {
        match pcm.lookup(g) {
            Some(p) => own + chain_entries(db, pcm, p, dt, (fuel - 1) as nat),
            None => own,
        }
    } else {
        own
    }
}

fn entries_of_game(db: &RomDb, g: &[u8]) -> (r: Vec<RomEntry>)
    ensures
        r@.map_values(|e: RomEntry| e@) == game_entries(*db, g@),
{
    let mut out: Vec<RomEntry> = Vec::new();
    let mut i: usize = 0;
    let rows: usize = db.rows.len();
    proof {
        assert(out@.map_values(|e: RomEntry| e@) =~= game_entries_upto(*db, g@, 0));
    }
    while i < rows
        invariant
            0 <= i <= rows,
            rows == db.rows@.len(),
            out@.map_values(|e: RomEntry| e@) == game_entries_upto(*db, g@, i as int),
        decreases rows - i,
    {
        let row = &db.rows[i];
        let row_len: usize = row.len();
        let mut k: usize = 0;
        proof {
            assert(out@.map_values(|e: RomEntry| e@) =~= game_entries_upto(*db, g@, i as int)
                + row_game_entries(db.rows@[i as int]@, g@, 0));
        }
        while k < row_len
            invariant
                0 <= i < rows,
                0 <= k <= row_len,
                rows == db.rows@.len(),
                row == db.rows@[i as int],
                row_len == db.rows@[i as int]@.len(),
                out@.map_values(|e: RomEntry| e@) == game_entries_upto(*db, g@, i as int)
                    + row_game_entries(db.rows@[i as int]@, g@, k as int),
            decreases row_len - k,
        {
            let e = &row[k];
            proof {
                assert(e@ == db.rows@[i as int]@[k as int]@);
            }
            if crate::bytes::bytes_eq(e.game.as_slice(), g) {
                let copy = e.duplicate();
                out.push(copy);
                proof {
                    assert(out@.map_values(|e2: RomEntry| e2@) =~= (game_entries_upto(
                        *db,
                        g@,
                        i as int,
                    ) + row_game_entries(db.rows@[i as int]@, g@, k as int)).push(
                        db.rows@[i as int]@[k as int]@,
                    ));
                    assert(game_entries_upto(*db, g@, i as int) + row_game_entries(
                        db.rows@[i as int]@,
                        g@,
                        k + 1 as int,
                    ) =~= (game_entries_upto(*db, g@, i as int) + row_game_entries(
                        db.rows@[i as int]@,
                        g@,
                        k as int,
                    )).push(db.rows@[i as int]@[k as int]@));
                }
            } else {
                proof {
                    assert(game_entries_upto(*db, g@, i as int) + row_game_entries(
                        db.rows@[i as int]@,
                        g@,
                        k + 1 as int,
                    ) =~= game_entries_upto(*db, g@, i as int) + row_game_entries(
                        db.rows@[i as int]@,
                        g@,
                        k as int,
                    ));
                }
            }
            k = k + 1;
        }
        i = i + 1;
    }
    out
}

/// One destination per digest, with the games the plan serves.
pub struct MameOrganizer {
    pub config: Config,
    pub dat_type: DatType,
    pub parent_clone_map: NameMap,
    pub games_needing_folders: GameSet,
}

impl MameOrganizer {
    pub fn new(
        config: Config,
        dat_type: DatType,
        parent_clone_map: NameMap,
        rom_db: &RomDb,
    ) -> (r: MameOrganizer)
        ensures
            r.config == config,
            r.dat_type == dat_type,
            r.parent_clone_map == parent_clone_map,
            r.games_needing_folders.wf(),
            forall|g: Seq<u8>|
                #[trigger] r.games_needing_folders.has(g) == (crate::rules::db_has_game(
                    *rom_db,
                    g,
                ) && crate::rules::needs_folder_spec(
                    *rom_db,
                    g,
                    crate::rules::stops_model(config.stop_words@),
                )),
    {
        let games_needing_folders = crate::rules::identify_games_needing_folders(rom_db, &config);
        MameOrganizer { config, dat_type, parent_clone_map, games_needing_folders }
    }

    /// The full requirement list of `game_name`: its own entries plus, under
    /// Split, the inherited entries of its parent chain.
    pub fn get_roms_for_game(&self, game_name: &[u8], rom_db: &RomDb) -> (r: Vec<RomEntry>)
        requires
            self.parent_clone_map.wf(),
        ensures
            r@.map_values(|e: RomEntry| e@) == chain_entries(
                *rom_db,
                self.parent_clone_map,
                game_name@,
                self.dat_type,
                self.parent_clone_map.keys@.len() as nat,
            ),
    {
        let ghost fuel0 = self.parent_clone_map.keys@.len() as nat;
        let mut out: Vec<RomEntry> = Vec::new();
        let mut cur: Vec<u8> = copy_bytes(game_name);
        let mut fuel: usize = self.parent_clone_map.key_count();
        let is_split: bool = self.dat_type == DatType::Split;
        proof {
            assert(out@.map_values(|e: RomEntry| e@) =~= Seq::<EntryModel>::empty());
        }
        loop
            invariant_except_break
                self.parent_clone_map.wf(),
                is_split == (self.dat_type == DatType::Split),
                fuel <= self.parent_clone_map.keys@.len(),
                out@.map_values(|e: RomEntry| e@) + chain_entries(
                    *rom_db,
                    self.parent_clone_map,
                    cur@,
                    self.dat_type,
                    fuel as nat,
                ) == chain_entries(
                    *rom_db,
                    self.parent_clone_map,
                    game_name@,
                    self.dat_type,
                    fuel0,
                ),
            ensures
                out@.map_values(|e: RomEntry| e@) == chain_entries(
                    *rom_db,
                    self.parent_clone_map,
                    game_name@,
                    self.dat_type,
                    fuel0,
                ),
            decreases fuel,
        {
            let mut own = entries_of_game(rom_db, cur.as_slice());
            let ghost out_pre = out@.map_values(|e: RomEntry| e@);
            let ghost own_m = own@.map_values(|e: RomEntry| e@);
            out.append(&mut own);
            proof {
                assert(out@.map_values(|e: RomEntry| e@) =~= out_pre + own_m);
            }
            if is_split && fuel > 0 {
                match self.parent_clone_map.get(cur.as_slice()) {
                    Some(parent) => {
                        let next = copy_bytes(parent.as_slice());
                        proof {
                            assert(chain_entries(
                                *rom_db,
                                self.parent_clone_map,
                                cur@,
                                self.dat_type,
                                fuel as nat,
                            ) == game_entries(*rom_db, cur@) + chain_entries(
                                *rom_db,
                                self.parent_clone_map,
                                next@,
                                self.dat_type,
                                (fuel - 1) as nat,
                            ));
                            assert(out@.map_values(|e: RomEntry| e@) + chain_entries(
                                *rom_db,
                                self.parent_clone_map,
                                next@,
                                self.dat_type,
                                (fuel - 1) as nat,
                            ) =~= out_pre + chain_entries(
                                *rom_db,
                                self.parent_clone_map,
                                cur@,
                                self.dat_type,
                                fuel as nat,
                            ));
                        }
                        cur = next;
                        fuel = fuel - 1;
                    },
                    None => {
                        proof {
                            assert(chain_entries(
                                *rom_db,
                                self.parent_clone_map,
                                cur@,
                                self.dat_type,
                                fuel as nat,
                            ) == game_entries(*rom_db, cur@));
                            assert(out@.map_values(|e: RomEntry| e@) =~= out_pre
                                + chain_entries(
                                *rom_db,
                                self.parent_clone_map,
                                cur@,
                                self.dat_type,
                                fuel as nat,
                            ));
                        }
                        break ;
                    },
                }
            } else {
                proof {
                    assert(chain_entries(
                        *rom_db,
                        self.parent_clone_map,
                        cur@,
                        self.dat_type,
                        fuel as nat,
                    ) == game_entries(*rom_db, cur@));
                    assert(out@.map_values(|e: RomEntry| e@) =~= out_pre + chain_entries(
                        *rom_db,
                        self.parent_clone_map,
                        cur@,
                        self.dat_type,
                        fuel as nat,
                    ));
                }
                break ;
            }
        }
        out
    }
}

// ---------------------------------------------------------------------------
// The per-run plan
// ---------------------------------------------------------------------------
/// One plan step: an entry claims its sha1 unless, outside NonMerged, the
/// digest is already planned and the entry's game is a clone.
pub open spec fn plan_step(
    m: Map<Seq<u8>, Seq<u8>>,
    e: EntryModel,
    dt: DatType,
    pcm: NameMap,
    folders: GameSet,
    rom_dir: Seq<u8>,
) -> Map<Seq<u8>, Seq<u8>> {
    match e.hashes.sha1 {
        Some(h) => {
            if dt != DatType::NonMerged && m.dom().contains(h) && pcm.contains_key(e.game) {
                m
            } else {
                m.insert(
                    h,
                    dest_spec(
                        rom_dir,
                        e.game,
                        e.name,
                        e.is_disk,
                        folders.has(e.game) || has_sep(e.name),
                    ),
                )
            }
        },
        None => m,
    }
}

pub open spec fn plan_roms(
    m: Map<Seq<u8>, Seq<u8>>,
    roms: Seq<EntryModel>,
    dt: DatType,
    pcm: NameMap,
    folders: GameSet,
    rom_dir: Seq<u8>,
) -> Map<Seq<u8>, Seq<u8>>
    decreases roms.len(),
{
    if roms.len() == 0 {
        m
    } else {
        plan_step(
            plan_roms(m, roms.drop_last(), dt, pcm, folders, rom_dir),
            roms.last(),
            dt,
            pcm,
            folders,
            rom_dir,
        )
    }
}

/// The plan after serving the first `j` user games, each with its full
/// (possibly inherited) requirement list.
pub open spec fn plan_games(
    db: RomDb,
    m: Map<Seq<u8>, Seq<u8>>,
    games: Seq<Vec<u8>>,
    j: int,
    dt: DatType,
    pcm: NameMap,
    folders: GameSet,
    rom_dir: Seq<u8>,
) -> Map<Seq<u8>, Seq<u8>>
    decreases j,
{
    if j <= 0 {
        m
    } else {
        plan_roms(
            plan_games(db, m, games, j - 1, dt, pcm, folders, rom_dir),
            chain_entries(db, pcm, games[j - 1]@, dt, pcm.keys@.len() as nat),
            dt,
            pcm,
            folders,
            rom_dir,
        )
    }
}

/// The association list realizes the mathematical plan pointwise.
pub open spec fn map_matches(nm: NameMap, m: Map<Seq<u8>, Seq<u8>>) -> bool {
    forall|h: Seq<u8>|
        #[trigger] nm.lookup(h) == if m.dom().contains(h) {
            Some(m[h])
        } else {
            None::<Seq<u8>>
        }
}

impl MameOrganizer {
    /// Build the per-run plan: the user's games are those whose declared
    /// entries the scanned files cover well enough; each such game claims a
    /// destination for every sha1 of its requirement list, clones deferring
    /// to already-claimed content outside NonMerged.
    pub fn build_plan(&self, rom_db: &RomDb, file_hashes: &Vec<FileHash>) -> (r: (
        NameMap,
        GameSet,
    ))
        requires
            self.parent_clone_map.wf(),
        ensures
            r.1.wf(),
            forall|g: Seq<u8>|
                #[trigger] r.1.has(g) == ((exists|f: int, e: int|
                    0 <= f < file_hashes@.len() && 0 <= e
                        < file_hashes@[f].matching_entries@.len()
                        && file_hashes@[f].matching_entries@[e]@.game == g) && user_has_game(
                    *rom_db,
                    file_hashes@,
                    g,
                )),
            r.0.wf(),
            map_matches(
                r.0,
                plan_games(
                    *rom_db,
                    Map::<Seq<u8>, Seq<u8>>::empty(),
                    r.1.items@,
                    r.1.items@.len() as int,
                    self.dat_type,
                    self.parent_clone_map,
                    self.games_needing_folders,
                    self.config@.rom_dir,
                ),
            ),
    {
        let candidates = crate::engine::collect_games(file_hashes);
        let mut user_games = GameSet::new();
        let mut i: usize = 0;
        let cand_total: usize = candidates.items.len();
        while i < cand_total
            invariant
                0 <= i <= cand_total,
                cand_total == candidates.items@.len(),
                candidates.wf(),
                forall|g: Seq<u8>|
                    #[trigger] candidates.has(g) == exists|f: int, e: int|
                        0 <= f < file_hashes@.len() && 0 <= e
                            < file_hashes@[f].matching_entries@.len()
                            && file_hashes@[f].matching_entries@[e]@.game == g,
                user_games.wf(),
                forall|g: Seq<u8>|
                    #[trigger] user_games.has(g) == (exists|j2: int|
                        0 <= j2 < i && candidates.items@[j2]@ == g && user_has_game(
                            *rom_db,
                            file_hashes@,
                            g,
                        )),
            decreases cand_total - i,
        {
            let g = &candidates.items[i];
            let fc = file_count_of(file_hashes, g.as_slice());
            let tc = total_count_of(rom_db, g.as_slice());
            let floor: u64 = if tc == 0 {
                1
            } else {
                tc
            };
            if (fc as u128) * 10 > (floor as u128) * 4 {
                user_games.insert(g.as_slice());
            }
            proof {
                assert forall|g2: Seq<u8>| #[trigger] user_games.has(g2) == (exists|j2: int|
                    0 <= j2 < i + 1 && candidates.items@[j2]@ == g2 && user_has_game(
                        *rom_db,
                        file_hashes@,
                        g2,
                    )) by {
                    if user_games.has(g2) {
                        if g2 == g@ && user_has_game(*rom_db, file_hashes@, g2) {
                            assert(candidates.items@[i as int]@ == g2);
                        } else {
                            let j2 = choose|j2: int|
                                0 <= j2 < i && candidates.items@[j2]@ == g2 && user_has_game(
                                    *rom_db,
                                    file_hashes@,
                                    g2,
                                );
                            assert(0 <= j2 < i + 1 && candidates.items@[j2]@ == g2);
                        }
                    }
                    if exists|j2: int|
                        0 <= j2 < i + 1 && candidates.items@[j2]@ == g2 && user_has_game(
                            *rom_db,
                            file_hashes@,
                            g2,
                        ) {
                        let j2 = choose|j2: int|
                            0 <= j2 < i + 1 && candidates.items@[j2]@ == g2 && user_has_game(
                                *rom_db,
                                file_hashes@,
                                g2,
                            );
                        if j2 == i {
                            assert(g2 == g@);
                            assert(user_games.has(g2));
                        }
                    }
                }
            }
            i = i + 1;
        }
        proof {
            assert forall|g: Seq<u8>| #[trigger] user_games.has(g) == (candidates.has(g)
                && user_has_game(*rom_db, file_hashes@, g)) by {
                if candidates.has(g) && user_has_game(*rom_db, file_hashes@, g) {
                    let j2 = choose|j2: int|
                        0 <= j2 < candidates.items@.len() && candidates.items@[j2]@ == g;
                }
            }
        }

        let mut required = NameMap::new();
        let ghost dt = self.dat_type;
        let ghost pcm = self.parent_clone_map;
        let ghost folders = self.games_needing_folders;
        let ghost rd = self.config@.rom_dir;
        let ghost items = user_games.items@;
        proof {
            assert(map_matches(required, Map::<Seq<u8>, Seq<u8>>::empty())) by {
                assert(forall|h: Seq<u8>| #[trigger] required.lookup(h) is None);
            }
        }
        let mut j: usize = 0;
        let ug_total: usize = user_games.items.len();
        while j < ug_total
            invariant
                0 <= j <= ug_total,
                ug_total == items.len(),
                items == user_games.items@,
                self.parent_clone_map.wf(),
                dt == self.dat_type,
                pcm == self.parent_clone_map,
                folders == self.games_needing_folders,
                rd == self.config@.rom_dir,
                required.wf(),
                map_matches(
                    required,
                    plan_games(
                        *rom_db,
                        Map::<Seq<u8>, Seq<u8>>::empty(),
                        items,
                        j as int,
                        dt,
                        pcm,
                        folders,
                        rd,
                    ),
                ),
            decreases ug_total - j,
        {
            let game = &user_games.items[j];
            let roms = self.get_roms_for_game(game.as_slice(), rom_db);
            let ghost chain = roms@.map_values(|e: RomEntry| e@);
            let ghost m_base = plan_games(
                *rom_db,
                Map::<Seq<u8>, Seq<u8>>::empty(),
                items,
                j as int,
                dt,
                pcm,
                folders,
                rd,
            );
            proof {
                assert(chain == chain_entries(*rom_db, pcm, items[j as int]@, dt,
                    pcm.keys@.len() as nat));
                assert(chain.take(0) =~= Seq::<EntryModel>::empty());
            }
            let mut k: usize = 0;
            let roms_total: usize = roms.len();
            while k < roms_total
                invariant
                    0 <= k <= roms_total,
                    roms_total == chain.len(),
                    chain == roms@.map_values(|e: RomEntry| e@),
                    self.parent_clone_map.wf(),
                    dt == self.dat_type,
                    pcm == self.parent_clone_map,
                    folders == self.games_needing_folders,
                    rd == self.config@.rom_dir,
                    required.wf(),
                    map_matches(
                        required,
                        plan_roms(m_base, chain.take(k as int), dt, pcm, folders, rd),
                    ),
                decreases roms_total - k,
            {
                let e = &roms[k];
                let ghost m_cur = plan_roms(m_base, chain.take(k as int), dt, pcm, folders, rd);
                proof {
                    assert(e@ == chain[k as int]);
                    assert(chain.take(k + 1 as int).drop_last() =~= chain.take(k as int));
                    assert(chain.take(k + 1 as int).last() == chain[k as int]);
                }
                match &e.hashes.sha1 {
                    Some(sha1) => {
                        let mut skip: bool = false;
                        if self.dat_type != DatType::NonMerged {
                            match required.get(sha1.as_slice()) {
                                Some(_) => {
                                    match self.parent_clone_map.get(e.game.as_slice()) {
                                        Some(_) => {
                                            skip = true;
                                        },
                                        None => {},
                                    }
                                },
                                None => {},
                            }
                        }
                        if !skip {
                            let folder = self.games_needing_folders.contains(e.game.as_slice())
                                || contains_byte(e.name.as_slice(), 47) || contains_byte(
                                e.name.as_slice(),
                                92,
                            );
                            proof {
                                crate::engine::lemma_sep_bytes(chain[k as int].name);
                            }
                            let dest = calculate_rom_path(
                                e.name.as_slice(),
                                e.game.as_slice(),
                                folder,
                                self.config.rom_dir.as_slice(),
                                e.is_disk,
                            );
                            required.set(sha1.as_slice(), dest.as_slice());
                            proof {
                                let m_next = plan_step(m_cur, chain[k as int], dt, pcm,
                                    folders, rd);
                                assert(m_next == m_cur.insert(sha1@, dest@));
                                assert forall|h: Seq<u8>| #[trigger] required.lookup(h) == (
                                if m_next.dom().contains(h) {
                                    Some(m_next[h])
                                } else {
                                    None::<Seq<u8>>
                                }) by {
                                    if h != sha1@ {
                                        assert(m_next.dom().contains(h) == m_cur.dom().contains(
                                            h,
                                        ));
                                        if m_next.dom().contains(h) {
                                            assert(m_next[h] == m_cur[h]);
                                        }
                                    }
                                }
                            }
                        } else {
                            proof {
                                assert(m_cur.dom().contains(sha1@));
                                assert(pcm.contains_key(chain[k as int].game));
                                assert(plan_step(m_cur, chain[k as int], dt, pcm, folders, rd)
                                    == m_cur);
                            }
                        }
                    },
                    None => {
                        proof {
                            assert(plan_step(m_cur, chain[k as int], dt, pcm, folders, rd)
                                == m_cur);
                        }
                    },
                }
                k = k + 1;
            }
            proof {
                assert(chain.take(k as int) =~= chain);
                assert(plan_games(
                    *rom_db,
                    Map::<Seq<u8>, Seq<u8>>::empty(),
                    items,
                    j + 1 as int,
                    dt,
                    pcm,
                    folders,
                    rd,
                ) == plan_roms(m_base, chain, dt, pcm, folders, rd));
            }
            j = j + 1;
        }
        (required, user_games)
    }
}

/// What the organizer does with one scanned file.
pub enum MameAction {
    /// Ensure the file sits at this destination (move it there unless the
    /// destination already exists), and mark the digest fulfilled.
    Place(Vec<u8>),
    /// The digest was already fulfilled this run; the file is surplus.
    Duplicate,
    /// No planned destination wants this digest.
    Unknown,
}

/// Decide one file of the organize pass against the plan and the set of
/// digests already fulfilled.
pub fn decide_file(plan: &NameMap, fulfilled: &mut GameSet, sha1: &[u8]) -> (r: MameAction)
    requires
        plan.wf(),
        old(fulfilled).wf(),
    ensures
        final(fulfilled).wf(),
        match r {
            MameAction::Place(dest) => {
                &&& plan.lookup(sha1@) == Some(dest@)
                &&& !old(fulfilled).has(sha1@)
                &&& forall|x: Seq<u8>|
                    #[trigger] final(fulfilled).has(x) == (old(fulfilled).has(x) || x == sha1@)
            },
            MameAction::Duplicate => {
                &&& plan.contains_key(sha1@)
                &&& old(fulfilled).has(sha1@)
                &&& final(fulfilled).items@ == old(fulfilled).items@
            },
            MameAction::Unknown => {
                &&& !plan.contains_key(sha1@)
                &&& final(fulfilled).items@ == old(fulfilled).items@
            },
        },
{
    match plan.get(sha1) {
        Some(dest) => {
            if fulfilled.contains(sha1) {
                MameAction::Duplicate
            } else {
                let d = copy_bytes(dest.as_slice());
                fulfilled.insert(sha1);
                MameAction::Place(d)
            }
        },
        None => MameAction::Unknown,
    }
}

} // verus!
