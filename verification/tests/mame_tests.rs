//! Hierarchical organizer: requirement chains, plans and per-file decisions.

use romaudit::config::Config;
use romaudit::db::{GameSet, RomDb};
use romaudit::mame::{decide_file, MameAction, MameOrganizer};
use romaudit::store::NameMap;
use romaudit::types::{DatType, FileHash, RomEntry, RomHashes};

const H_P: &[u8] = b"1111111111111111111111111111111111111111";
const H_C: &[u8] = b"2222222222222222222222222222222222222222";

fn entry(game: &[u8], name: &[u8], sha1: &[u8]) -> RomEntry {
    RomEntry {
        name: name.to_vec(),
        game: game.to_vec(),
        hashes: RomHashes { sha1: Some(sha1.to_vec()), md5: None, crc: None },
        is_disk: false,
    }
}

fn file(path: &[u8], sha1: &[u8], matches: Vec<RomEntry>) -> FileHash {
    FileHash {
        path: path.to_vec(),
        sha1: sha1.to_vec(),
        md5: b"00".to_vec(),
        crc: b"00".to_vec(),
        matching_entries: matches,
    }
}

fn split_setup() -> (RomDb, NameMap) {
    let mut db = RomDb::new();
    db.insert_entry(H_P, entry(b"parentg", b"p.bin", H_P));
    db.insert_entry(H_C, entry(b"cloneg", b"c.bin", H_C));
    let mut pcm = NameMap::new();
    pcm.set(b"cloneg", b"parentg");
    (db, pcm)
}

#[test]
fn split_requirement_list_inherits_parent_content() {
    let (db, pcm) = split_setup();
    let org = MameOrganizer::new(Config::load(), DatType::Split, pcm, &db);
    let roms = org.get_roms_for_game(b"cloneg", &db);
    let names: Vec<Vec<u8>> = roms.iter().map(|e| e.name.clone()).collect();
    assert_eq!(names, vec![b"c.bin".to_vec(), b"p.bin".to_vec()]);
    let parent_roms = org.get_roms_for_game(b"parentg", &db);
    assert_eq!(parent_roms.len(), 1);
}

#[test]
fn build_plan_covers_a_well_represented_game() {
    let (db, pcm) = split_setup();
    let org = MameOrganizer::new(Config::load(), DatType::Split, pcm, &db);
    let files = vec![
        file(b"./p.bin", H_P, vec![entry(b"parentg", b"p.bin", H_P)]),
        file(b"./c.bin", H_C, vec![entry(b"cloneg", b"c.bin", H_C)]),
    ];
    let (plan, user_games) = org.build_plan(&db, &files);
    assert!(user_games.contains(b"parentg"));
    assert!(user_games.contains(b"cloneg"));
    assert!(plan.get(H_P).is_some());
    assert!(plan.get(H_C).is_some());
    // "p" is not similar enough to "parentg", so the game gets a folder
    assert_eq!(plan.get(H_P).unwrap().clone(), b"roms/parentg/p.bin".to_vec());
}

#[test]
fn plan_skips_nothing_for_non_merged_sets() {
    let (db, pcm) = split_setup();
    let org = MameOrganizer::new(Config::load(), DatType::NonMerged, pcm, &db);
    let files = vec![
        file(b"./p.bin", H_P, vec![entry(b"parentg", b"p.bin", H_P)]),
        file(b"./c.bin", H_C, vec![entry(b"cloneg", b"c.bin", H_C)]),
    ];
    let (plan, _) = org.build_plan(&db, &files);
    assert!(plan.get(H_P).is_some());
    assert!(plan.get(H_C).is_some());
}

#[test]
fn build_plan_skips_a_poorly_represented_game() {
    // the game declares three entries; one file on disk covers a third of
    // them, under the forty percent threshold
    let mut db = RomDb::new();
    db.insert_entry(H_P, entry(b"bigset", b"r1.bin", H_P));
    db.insert_entry(H_C, entry(b"bigset", b"r2.bin", H_C));
    db.insert_entry(b"3333333333333333333333333333333333333333", entry(
        b"bigset",
        b"r3.bin",
        b"3333333333333333333333333333333333333333",
    ));
    let org = MameOrganizer::new(Config::load(), DatType::NonMerged, NameMap::new(), &db);
    let files = vec![file(b"./r1.bin", H_P, vec![entry(b"bigset", b"r1.bin", H_P)])];
    let (plan, user_games) = org.build_plan(&db, &files);
    assert!(!user_games.contains(b"bigset"));
    assert!(plan.get(H_P).is_none());
}

#[test]
fn decide_file_places_once_then_reports_duplicates() {
    let mut plan = NameMap::new();
    plan.set(H_P, b"roms/p.bin");
    let mut fulfilled = GameSet::new();
    match decide_file(&plan, &mut fulfilled, H_P) {
        MameAction::Place(dest) => assert_eq!(dest, b"roms/p.bin".to_vec()),
        _ => panic!("expected placement"),
    }
    match decide_file(&plan, &mut fulfilled, H_P) {
        MameAction::Duplicate => {},
        _ => panic!("expected duplicate"),
    }
    match decide_file(&plan, &mut fulfilled, H_C) {
        MameAction::Unknown => {},
        _ => panic!("expected unknown"),
    }
}
