//! Digests, holding-folder allocation, incremental state and reports.

use romaudit::bytes::{bytes_eq, contains_sub, count_sub, find_sub, to_lower, u64_to_dec};
use romaudit::config::Config;
use romaudit::db::GameSet;
use romaudit::digest::{calculate_hashes, crc_hex, to_hex_lower};
use romaudit::folders::FolderAllocator;
use romaudit::incremental::{should_use_incremental, FileMeta, IncrementalScanState};
use romaudit::jsondb::{pairs_for_game, render_store_json, sort_pairs};
use romaudit::report::{
    folders_report, have_report, missing_report, shared_report, sort_names, SharedReportEntry,
};
use romaudit::store::Store;

#[test]
fn digests_of_known_bytes() {
    let (sha1, md5, crc) = calculate_hashes(b"Hello, World!");
    assert_eq!(sha1, b"0a0a9f2a6772942557ab5355d76af442f8f65e01".to_vec());
    assert_eq!(md5, b"65a8e27d8879283831b664bd8b7f0ad4".to_vec());
    assert_eq!(crc, b"ec4ac3d0".to_vec());
}

#[test]
fn hex_rendering() {
    assert_eq!(to_hex_lower(&[0u8, 15, 160, 255]), b"000fa0ff".to_vec());
    assert_eq!(crc_hex(0xec4ac3d0), b"ec4ac3d0".to_vec());
    assert_eq!(crc_hex(7), b"00000007".to_vec());
    assert_eq!(u64_to_dec(0), b"0".to_vec());
    assert_eq!(u64_to_dec(1048576), b"1048576".to_vec());
}

#[test]
fn byte_string_helpers() {
    assert!(bytes_eq(b"abc", b"abc"));
    assert!(!bytes_eq(b"abc", b"abd"));
    assert_eq!(to_lower(b"MiXeD 12!"), b"mixed 12!".to_vec());
    assert!(contains_sub(b"hello world", b"lo wo"));
    assert!(!contains_sub(b"hello", b"xyz"));
    assert_eq!(find_sub(b"abcabc", b"bc"), Some(1));
    assert_eq!(count_sub(b"aaaa", b"aa"), 2);
    assert_eq!(count_sub(b"<game <game <game ", b"<game "), 3);
}

#[test]
fn folder_allocator_counts_upward() {
    let mut alloc = FolderAllocator::new(b"duplicates");
    assert_eq!(alloc.candidate(), Some(b"duplicates1".to_vec()));
    alloc.advance();
    assert_eq!(alloc.candidate(), Some(b"duplicates2".to_vec()));
    let mut n = 2;
    while n < 1000 {
        alloc.advance();
        n += 1;
    }
    // the bounded search gives up rather than looping forever
    assert_eq!(alloc.candidate(), None);
}

#[test]
fn incremental_state_tracks_changes() {
    let mut st = IncrementalScanState::new();
    let meta = FileMeta { size: 9, modified_s: 100, modified_ns: 5 };
    // a new file needs scanning; a missing one does not
    assert!(st.needs_rescan(b"test.rom", true, Some(meta)));
    assert!(!st.needs_rescan(b"test.rom", false, Some(meta)));
    assert!(st.needs_rescan(b"test.rom", true, None));
    st.update_file(b"test.rom", b"fake_sha1", meta, 200);
    assert!(!st.needs_rescan(b"test.rom", true, Some(meta)));
    // a size or time change forces a rescan
    let grown = FileMeta { size: 18, modified_s: 100, modified_ns: 5 };
    let touched = FileMeta { size: 9, modified_s: 101, modified_ns: 5 };
    assert!(st.needs_rescan(b"test.rom", true, Some(grown)));
    assert!(st.needs_rescan(b"test.rom", true, Some(touched)));
    // cleanup drops records of absent paths
    let mut present = GameSet::new();
    present.insert(b"other.rom");
    st.cleanup(&present);
    assert_eq!(st.tracked_count(), 0);
    assert!(st.needs_rescan(b"test.rom", true, Some(meta)));
}

#[test]
fn files_to_scan_lists_changed_paths() {
    let mut st = IncrementalScanState::new();
    let meta = FileMeta { size: 1, modified_s: 2, modified_ns: 3 };
    st.update_file(b"a.rom", b"s", meta, 10);
    let all = vec![
        (b"a.rom".to_vec(), true, Some(meta)),
        (b"b.rom".to_vec(), true, Some(meta)),
    ];
    let need = st.get_files_to_scan(&all);
    assert_eq!(need, vec![b"b.rom".to_vec()]);
    assert!(should_use_incremental(100, 10));
    assert!(!should_use_incremental(100, 50));
    assert!(should_use_incremental(2000, 1999));
}

#[test]
fn sorted_reports_have_exact_text() {
    let names = vec![b"beta".to_vec(), b"alpha".to_vec()];
    let sorted = sort_names(&names);
    assert_eq!(sorted, vec![b"alpha".to_vec(), b"beta".to_vec()]);
    let have = have_report(&sorted, 3);
    assert_eq!(have, b"ROMs Found: 2 / 3\n\nalpha\nbeta\n".to_vec());
    let missing = missing_report(&sorted, 3);
    assert_eq!(missing, b"Missing ROMs: 2 / 3\n\nalpha\nbeta\n".to_vec());
    let folders = folders_report(&sorted);
    let expected_folders = b"Games stored in subfolders:\n- Games with multiple ROM files\n- Single ROM games where ROM filename differs from game name\n  (ROM keeps its original name from DAT, placed in game-named folder)\n\nalpha\nbeta\n".to_vec();
    assert_eq!(folders, expected_folders);
}

#[test]
fn shared_report_lists_blocks_and_summary() {
    let entries = vec![SharedReportEntry {
        hash: b"bbbb2".to_vec(),
        names: vec![b"a.bin".to_vec(), b"b.bin".to_vec()],
        games: vec![b"A".to_vec(), b"B".to_vec()],
    }];
    let text = shared_report(&entries, 2);
    let expected = b"Shared ROMs (same file content used by multiple games - each has its own copy):\n===============================================================================\n\nHash: bbbb2\nShared by 2 games:\nROM name(s): a.bin, b.bin\n\n  - A\n  - B\n\n--------------------------------------------------------------------------------\n\nSummary:\nTotal shared files: 1\nTotal games affected: 2\n".to_vec();
    assert_eq!(text, expected);
}

#[test]
fn store_json_is_sorted_and_escaped() {
    let mut store = Store::new();
    store.record(b"hash2", b"Game \"B\"", b"n2.bin");
    store.record(b"hash1", b"A", b"n1.bin");
    store.record(b"hash3", b"A", b"n0.bin");
    // group per game, names sorted, games sorted
    let games = vec![b"Game \"B\"".to_vec(), b"A".to_vec()];
    let sorted_games = sort_names(&games);
    let mut rows: Vec<(Vec<u8>, Vec<(Vec<u8>, Vec<u8>)>)> = Vec::new();
    for g in &sorted_games {
        let pairs = pairs_for_game(&store, g);
        rows.push((g.clone(), sort_pairs(&pairs)));
    }
    let json = render_store_json(&rows);
    let expected = b"{\n  \"A\": {\n    \"hash3\": \"n0.bin\",\n    \"hash1\": \"n1.bin\"\n  },\n  \"Game \\\"B\\\"\": {\n    \"hash2\": \"n2.bin\"\n  }\n}".to_vec();
    assert_eq!(json, expected);
}

#[test]
fn config_defaults_match_the_documented_layout() {
    let cfg = Config::load();
    assert_eq!(cfg.rom_dir, b"roms".to_vec());
    assert_eq!(cfg.logs_dir, b"logs".to_vec());
    assert_eq!(cfg.db_file, b"rom_db.json".to_vec());
    assert_eq!(cfg.duplicate_prefix, b"duplicates".to_vec());
    assert_eq!(cfg.unknown_prefix, b"unknown".to_vec());
    assert_eq!(cfg.buffer_size, 1024 * 1024);
    assert_eq!(cfg.stop_words.len(), 10);
    assert_eq!(cfg.stop_words[0], b"the".to_vec());
}
