//! Matching, planning, placement decisions, provenance and run summaries.

use romaudit::config::Config;
use romaudit::db::{GameSet, RomDb};
use romaudit::engine::{
    calculate_rom_path, collect_games, compute_missing, filter_entries_by_set_type,
    find_matching_entries, initial_have, intersect_games, plan_file, process_file,
    shared_roms_of, Organizer,
};
use romaudit::store::{NameMap, Store};
use romaudit::types::{DatType, FileHash, ProcessResult, RomEntry, RomHashes};

const SHA1_A: &[u8] = b"aaaaaaaaaaaaaaaaaaaaaaaaaaaaaaaaaaaaaaa1";
const SHA1_B: &[u8] = b"bbbbbbbbbbbbbbbbbbbbbbbbbbbbbbbbbbbbbbb2";

fn entry(game: &[u8], name: &[u8], sha1: &[u8]) -> RomEntry {
    RomEntry {
        name: name.to_vec(),
        game: game.to_vec(),
        hashes: RomHashes { sha1: Some(sha1.to_vec()), md5: None, crc: None },
        is_disk: false,
    }
}

fn file(path: &[u8], sha1: &[u8], matches: Vec<RomEntry>) -> FileHash {
    FileHash {
        path: path.to_vec(),
        sha1: sha1.to_vec(),
        md5: b"d41d8cd98f00b204e9800998ecf8427e".to_vec(),
        crc: b"00000000".to_vec(),
        matching_entries: matches,
    }
}

fn foo_catalog() -> RomDb {
    let mut db = RomDb::new();
    db.insert_entry(SHA1_A, entry(b"foo", b"foo.bin", SHA1_A));
    db
}

#[test]
fn lookup_returns_inserted_entries() {
    let db = foo_catalog();
    let row = db.get(SHA1_A).expect("inserted digest is found");
    assert_eq!(row.len(), 1);
    assert_eq!(row[0].name, b"foo.bin".to_vec());
    assert!(db.get(SHA1_B).is_none());
}

#[test]
fn union_lookup_deduplicates_by_name() {
    let mut db = RomDb::new();
    let mut e = entry(b"foo", b"foo.bin", SHA1_A);
    e.hashes.md5 = Some(b"11112222333344445555666677778888".to_vec());
    db.insert_entry(SHA1_A, RomEntry {
        name: e.name.clone(),
        game: e.game.clone(),
        hashes: RomHashes {
            sha1: Some(SHA1_A.to_vec()),
            md5: Some(b"11112222333344445555666677778888".to_vec()),
            crc: None,
        },
        is_disk: false,
    });
    db.insert_entry(b"11112222333344445555666677778888", e);
    let matches = find_matching_entries(
        &db,
        SHA1_A,
        b"11112222333344445555666677778888",
        b"00000000",
    );
    // the same declared entry, reachable via sha1 and md5, appears once
    assert_eq!(matches.len(), 1);
    assert_eq!(matches[0].name, b"foo.bin".to_vec());
}

#[test]
fn scenario_single_file_moves_to_root() {
    let db = foo_catalog();
    let config = Config::load();
    let organizer = Organizer::new(config, &db);
    assert!(!organizer.games_needing_folders().contains(b"foo"));

    let matches = find_matching_entries(&db, SHA1_A, b"00", b"00");
    assert_eq!(matches.len(), 1);
    let f = file(b"./x.bin", SHA1_A, matches);
    let files = vec![f];
    let present = collect_games(&files);
    assert!(present.contains(b"foo"));

    let plan = plan_file(
        &files[0],
        &present,
        organizer.games_needing_folders(),
        &organizer.config,
    );
    assert!(plan.had_matches);
    assert_eq!(plan.placements.len(), 1);
    assert_eq!(plan.placements[0].dest, b"roms/foo.bin".to_vec());
    assert_eq!(plan.filename, b"x.bin".to_vec());

    let mut store = Store::new();
    let outcomes = vec![true];
    let result = process_file(&plan, &outcomes, &mut store);
    match result {
        ProcessResult::Organized(g) => assert_eq!(g, b"foo".to_vec()),
        _ => panic!("expected a placement"),
    }
    let row = store.get(SHA1_A).expect("recorded");
    assert_eq!(row.len(), 1);
    assert_eq!(row[0].0, b"foo".to_vec());
    assert_eq!(row[0].1, b"foo.bin".to_vec());

    // have = {foo}, missing is empty
    let db2 = foo_catalog();
    let pd_games = {
        let mut gs = GameSet::new();
        gs.insert(b"foo");
        gs
    };
    let mut have = initial_have(&store);
    assert!(have.contains(b"foo"));
    have.insert(b"foo");
    let missing = compute_missing(&pd_games, &have);
    assert_eq!(missing.len(), 0);
    drop(db2);
}

#[test]
fn scenario_upper_case_stem_gets_game_folder() {
    let mut db = RomDb::new();
    db.insert_entry(SHA1_A, entry(b"Memory (Japan)", b"MEMORY.ASF", SHA1_A));
    let config = Config::load();
    let organizer = Organizer::new(config, &db);
    assert!(organizer.games_needing_folders().contains(b"Memory (Japan)"));
    let dest = calculate_rom_path(b"MEMORY.ASF", b"Memory (Japan)", true, b"roms", false);
    assert_eq!(dest, b"roms/Memory (Japan)/MEMORY.ASF".to_vec());
}

#[test]
fn scenario_shared_digest_placed_under_both_games() {
    let mut db = RomDb::new();
    db.insert_entry(SHA1_B, entry(b"A", b"a.bin", SHA1_B));
    db.insert_entry(SHA1_B, entry(b"B", b"b.bin", SHA1_B));
    let config = Config::load();
    let organizer = Organizer::new(config, &db);

    let matches = find_matching_entries(&db, SHA1_B, b"00", b"00");
    assert_eq!(matches.len(), 2);
    let files = vec![file(b"./shared.bin", SHA1_B, matches)];
    let present = collect_games(&files);
    assert!(present.contains(b"A") && present.contains(b"B"));

    let plan = plan_file(
        &files[0],
        &present,
        organizer.games_needing_folders(),
        &organizer.config,
    );
    assert_eq!(plan.placements.len(), 2);

    let mut store = Store::new();
    let result = process_file(&plan, &vec![true, true], &mut store);
    match result {
        ProcessResult::Organized(g) => assert_eq!(g, b"A".to_vec()),
        _ => panic!("expected a placement"),
    }
    let row = store.get(SHA1_B).expect("recorded");
    assert_eq!(row.len(), 2);

    // both games count as held within this very run
    let mut all = GameSet::new();
    all.insert(b"A");
    all.insert(b"B");
    let have = intersect_games(&initial_have(&store), &all);
    assert!(have.contains(b"A"));
    assert!(have.contains(b"B"));
    let missing = compute_missing(&all, &have);
    assert_eq!(missing.len(), 0);

    // the digest shows up in the shared-content report with exactly {A, B}
    let shared = shared_roms_of(&store);
    let games = shared.games_for(SHA1_B).expect("shared digest listed");
    assert!(games.contains(b"A"));
    assert!(games.contains(b"B"));
    assert_eq!(games.len(), 2);
    assert!(shared.games_for(SHA1_A).is_none());
}

#[test]
fn scenario_unmatched_file_is_unknown() {
    let db = foo_catalog();
    let matches = find_matching_entries(&db, SHA1_B, b"00", b"00");
    assert_eq!(matches.len(), 0);
    let files = vec![file(b"./stray.bin", SHA1_B, matches)];
    let present = collect_games(&files);
    let config = Config::load();
    let organizer = Organizer::new(config, &db);
    let plan = plan_file(
        &files[0],
        &present,
        organizer.games_needing_folders(),
        &organizer.config,
    );
    assert!(!plan.had_matches);
    let mut store = Store::new();
    let result = process_file(&plan, &vec![], &mut store);
    match result {
        ProcessResult::Unknown(f) => assert_eq!(f, b"stray.bin".to_vec()),
        _ => panic!("expected unknown"),
    }
    assert!(store.get(SHA1_B).is_none());
}

#[test]
fn scenario_second_copy_is_duplicate_and_rerun_records_nothing() {
    let db = foo_catalog();
    let config = Config::load();
    let organizer = Organizer::new(config, &db);
    let matches = find_matching_entries(&db, SHA1_A, b"00", b"00");
    let files = vec![file(b"./again.bin", SHA1_A, matches)];
    let present = collect_games(&files);
    let plan = plan_file(
        &files[0],
        &present,
        organizer.games_needing_folders(),
        &organizer.config,
    );
    let mut store = Store::new();
    store.record(SHA1_A, b"foo", b"foo.bin");
    // the destination already exists, so no placement is performed
    let result = process_file(&plan, &vec![false], &mut store);
    match result {
        ProcessResult::Duplicate(f) => assert_eq!(f, b"again.bin".to_vec()),
        _ => panic!("expected duplicate"),
    }
    // the store did not grow
    let row = store.get(SHA1_A).expect("previous record kept");
    assert_eq!(row.len(), 1);
}

#[test]
fn have_and_missing_partition_all_games() {
    let mut all = GameSet::new();
    all.insert(b"A");
    all.insert(b"B");
    all.insert(b"C");
    let mut have = GameSet::new();
    have.insert(b"B");
    let missing = compute_missing(&all, &have);
    assert!(!missing.contains(b"B"));
    assert!(missing.contains(b"A"));
    assert!(missing.contains(b"C"));
    assert_eq!(missing.len() + have.len(), all.len());
}

#[test]
fn set_type_filter_split_and_merged() {
    let mut pcm = NameMap::new();
    pcm.set(b"clone1", b"parent1");
    let both = vec![
        entry(b"parent1", b"p.bin", SHA1_A),
        entry(b"clone1", b"c.bin", SHA1_A),
    ];
    // Split: the clone defers to its matching parent
    let kept = filter_entries_by_set_type(&both, &DatType::Split, &pcm);
    assert_eq!(kept.len(), 1);
    assert_eq!(kept[0].game, b"parent1".to_vec());
    // Split with only clone-side matches: the clone stands
    let clone_only = vec![entry(b"clone1", b"c.bin", SHA1_A)];
    let kept2 = filter_entries_by_set_type(&clone_only, &DatType::Split, &pcm);
    assert_eq!(kept2.len(), 1);
    assert_eq!(kept2[0].game, b"clone1".to_vec());
    // Merged: clones always collapse away
    let kept3 = filter_entries_by_set_type(&clone_only, &DatType::Merged, &pcm);
    assert_eq!(kept3.len(), 0);
    // NonMerged: nothing is filtered
    let kept4 = filter_entries_by_set_type(&both, &DatType::NonMerged, &pcm);
    assert_eq!(kept4.len(), 2);
}

#[test]
fn disk_and_nested_destinations() {
    assert_eq!(
        calculate_rom_path(b"cdimage", b"Game", true, b"roms", true),
        b"roms/Game/cdimage/cdimage.chd".to_vec()
    );
    assert_eq!(
        calculate_rom_path(b"sub\\inner.bin", b"Game", true, b"roms", false),
        b"roms/Game/sub/inner.bin".to_vec()
    );
    assert_eq!(
        calculate_rom_path(b"plain.bin", b"Game", false, b"roms", false),
        b"roms/plain.bin".to_vec()
    );
}
