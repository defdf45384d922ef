//! Folder-need classification and the name-similarity heuristic.

use romaudit::config::Config;
use romaudit::db::RomDb;
use romaudit::rules::{
    extract_base_name, extract_significant_words, file_name_of, identify_games_needing_folders,
    is_rom_name_similar_to_game, split_stem,
};
use romaudit::types::{RomEntry, RomHashes};

fn entry(game: &[u8], name: &[u8], is_disk: bool) -> RomEntry {
    RomEntry {
        name: name.to_vec(),
        game: game.to_vec(),
        hashes: RomHashes { sha1: None, md5: None, crc: None },
        is_disk,
    }
}

#[test]
fn stems_and_base_names() {
    assert_eq!(split_stem(b"foo.bin"), b"foo".to_vec());
    assert_eq!(split_stem(b"dir/sub\\name.tar.gz"), b"name.tar".to_vec());
    assert_eq!(split_stem(b"noext"), b"noext".to_vec());
    assert_eq!(split_stem(b".hidden"), b".hidden".to_vec());
    assert_eq!(extract_base_name(b"[BIOS] Play Thing (Japan).bin"), b"Play Thing".to_vec());
    assert_eq!(extract_base_name(b"Plain Name"), b"Plain Name".to_vec());
    assert_eq!(file_name_of(b"a/b/c.bin"), b"c.bin".to_vec());
}

#[test]
fn significant_words_are_distinct_and_filtered() {
    let cfg = Config::load();
    let words = extract_significant_words(b"the big big race for two", &cfg.stop_words);
    assert_eq!(words, vec![b"big".to_vec(), b"race".to_vec(), b"two".to_vec()]);
}

#[test]
fn similarity_demands_exact_stems_for_short_names() {
    let cfg = Config::load();
    assert!(is_rom_name_similar_to_game(b"Foo", b"Foo.bin", &cfg));
    // short names differing in case are not similar; the game gets a folder
    assert!(!is_rom_name_similar_to_game(b"Foo", b"foo.bin", &cfg));
    // longer names pass the case-insensitive base-name stage
    assert!(is_rom_name_similar_to_game(b"Adventure One", b"adventure one.bin", &cfg));
}

#[test]
fn similarity_rejects_upper_case_stem() {
    let cfg = Config::load();
    // Scenario: MEMORY.ASF against the mixed-case game name is not similar
    assert!(!is_rom_name_similar_to_game(b"Memory (Japan)", b"MEMORY.ASF", &cfg));
}

#[test]
fn similarity_rejects_separator_swaps() {
    let cfg = Config::load();
    assert!(!is_rom_name_similar_to_game(
        b"[BIOS] Play-Yan Micro Key File (Japan)",
        b"play_yanmicro.ini",
        &cfg,
    ));
}

#[test]
fn similarity_base_name_stages() {
    let cfg = Config::load();
    // qualifier-stripped exact match
    assert!(is_rom_name_similar_to_game(b"Super Race (USA)", b"Super Race.bin", &cfg));
    // containment for long enough names
    assert!(is_rom_name_similar_to_game(b"Mega Adventure Deluxe", b"Mega Adventure.bin", &cfg));
    // word overlap: three of three significant words shared
    assert!(is_rom_name_similar_to_game(
        b"Great Space Battle Arena",
        b"great-battle-space-arena.bin",
        &cfg,
    ));
    // unrelated names are not similar
    assert!(!is_rom_name_similar_to_game(b"Alpha Strike", b"zzz.bin", &cfg));
}

#[test]
fn folders_for_multi_name_disk_and_dissimilar_games() {
    let cfg = Config::load();
    let mut db = RomDb::new();
    // two distinct names: needs a folder
    db.insert_entry(b"a1", entry(b"Multi", b"one.bin", false));
    db.insert_entry(b"a2", entry(b"Multi", b"two.bin", false));
    // disk image: needs a folder
    db.insert_entry(b"b1", entry(b"Disky", b"cd1", true));
    // declared path separator: needs a folder
    db.insert_entry(b"c1", entry(b"Nested", b"sub/data.bin", false));
    // dissimilar single name: needs a folder
    db.insert_entry(b"d1", entry(b"Memory (Japan)", b"MEMORY.ASF", false));
    // similar single name: no folder
    db.insert_entry(b"e1", entry(b"foo", b"foo.bin", false));
    let folders = identify_games_needing_folders(&db, &cfg);
    assert!(folders.contains(b"Multi"));
    assert!(folders.contains(b"Disky"));
    assert!(folders.contains(b"Nested"));
    assert!(folders.contains(b"Memory (Japan)"));
    assert!(!folders.contains(b"foo"));
    assert!(!folders.contains(b"Absent"));
}

#[test]
fn one_entry_indexed_under_three_digests_is_one_name() {
    let cfg = Config::load();
    let mut db = RomDb::new();
    let e = RomEntry {
        name: b"foo.bin".to_vec(),
        game: b"foo".to_vec(),
        hashes: RomHashes {
            sha1: Some(b"aa".to_vec()),
            md5: Some(b"bb".to_vec()),
            crc: Some(b"cc".to_vec()),
        },
        is_disk: false,
    };
    db.insert_entry(b"aa", RomEntry { name: e.name.clone(), game: e.game.clone(), hashes: RomHashes { sha1: Some(b"aa".to_vec()), md5: Some(b"bb".to_vec()), crc: Some(b"cc".to_vec()) }, is_disk: false });
    db.insert_entry(b"bb", RomEntry { name: e.name.clone(), game: e.game.clone(), hashes: RomHashes { sha1: Some(b"aa".to_vec()), md5: Some(b"bb".to_vec()), crc: Some(b"cc".to_vec()) }, is_disk: false });
    db.insert_entry(b"cc", e);
    // the same entry reachable under three digest keys still counts one name
    let folders = identify_games_needing_folders(&db, &cfg);
    assert!(!folders.contains(b"foo"));
}
