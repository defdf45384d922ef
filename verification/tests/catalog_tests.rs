//! Catalog parsing and dialect detection.

use romaudit::detector::{dat_type_name, detect_dat_type, is_mame_filename, is_mame_xml};
use romaudit::parser::parse_dat_file;
use romaudit::types::DatType;
use romaudit::xml::XmlParser;

fn names_of(entries: &Vec<romaudit::types::RomEntry>) -> Vec<Vec<u8>> {
    entries.iter().map(|e| e.name.clone()).collect()
}

#[test]
fn parse_standard_dat_self_closing() {
    let dat = b"<?xml version=\"1.0\"?>\n<datafile>\n  <game name=\"Foo\">\n    <rom name=\"foo.bin\" sha1=\"AAAA1111AAAA1111AAAA1111AAAA1111AAAA1111\" md5=\"BBBB2222BBBB2222BBBB2222BBBB2222\" crc=\"CAFE0001\"/>\n  </game>\n</datafile>\n";
    let pd = parse_dat_file(b"games.dat", dat).expect("well-formed catalog");
    assert!(!pd.mame);
    assert!(pd.dat_type == DatType::Standard);
    assert!(pd.parent_clone_map.keys.is_empty());
    assert!(pd.all_games.contains(b"Foo"));
    assert_eq!(pd.all_games.len(), 1);
    // lower-cased digest keys, one entry under each digest kind
    let row = pd
        .rom_db
        .get(b"aaaa1111aaaa1111aaaa1111aaaa1111aaaa1111")
        .expect("indexed by sha1");
    assert_eq!(row.len(), 1);
    assert_eq!(row[0].name, b"foo.bin".to_vec());
    assert_eq!(row[0].game, b"Foo".to_vec());
    assert!(!row[0].is_disk);
    assert!(pd.rom_db.get(b"bbbb2222bbbb2222bbbb2222bbbb2222").is_some());
    assert!(pd.rom_db.get(b"cafe0001").is_some());
    assert!(pd.rom_db.get(b"0000000000000000000000000000000000000000").is_none());
}

#[test]
fn parse_open_close_rom_shape() {
    let dat = b"<datafile><game name=\"Bar\"><rom name=\"bar.bin\" crc=\"12345678\"></rom></game></datafile>";
    let pd = parse_dat_file(b"games.dat", dat).expect("well-formed catalog");
    let row = pd.rom_db.get(b"12345678").expect("indexed by crc");
    assert_eq!(names_of(row), vec![b"bar.bin".to_vec()]);
}

#[test]
fn parse_disk_shape() {
    let dat = b"<datafile><game name=\"Arcade Thing\"><disk name=\"disk1\" sha1=\"DDDD4444DDDD4444DDDD4444DDDD4444DDDD4444\"/></game></datafile>";
    let pd = parse_dat_file(b"games.dat", dat).expect("well-formed catalog");
    let row = pd
        .rom_db
        .get(b"dddd4444dddd4444dddd4444dddd4444dddd4444")
        .expect("indexed by sha1");
    assert!(row[0].is_disk);
    assert!(row[0].hashes.md5.is_none());
    assert!(row[0].hashes.crc.is_none());
}

#[test]
fn parse_rejects_unbalanced_markup() {
    let parser = XmlParser::new();
    assert!(parser.parse(b"<datafile><game name=\"X\">", false, DatType::Standard).is_err());
    assert!(parser.parse(b"<a></b>", false, DatType::Standard).is_err());
    assert!(parser.parse(b"<a attr=>", false, DatType::Standard).is_err());
}

#[test]
fn parse_accepts_entryless_catalog() {
    let pd = parse_dat_file(b"empty.dat", b"<datafile></datafile>").expect("valid");
    assert_eq!(pd.all_games.len(), 0);
    assert_eq!(pd.rom_db.hash_count(), 0);
}

#[test]
fn parse_unescapes_attribute_values() {
    let dat = b"<datafile><game name=\"Q &amp; A\"><rom name=\"q&#32;a.bin\" crc=\"0a0b0c0d\"/></game></datafile>";
    let pd = parse_dat_file(b"games.dat", dat).expect("valid");
    assert!(pd.all_games.contains(b"Q & A"));
    let row = pd.rom_db.get(b"0a0b0c0d").expect("entry");
    assert_eq!(row[0].name, b"q a.bin".to_vec());
}

#[test]
fn parse_mame_dialect_fills_parent_clone_map() {
    let dat = b"<mame build=\"x\"><machine name=\"parentg\"><rom name=\"p.bin\" crc=\"00000001\"/></machine><machine name=\"cloneg\" cloneof=\"parentg\"><rom name=\"c.bin\" crc=\"00000002\"/></machine></mame>";
    let pd = parse_dat_file(b"mame-split.dat", dat).expect("valid");
    assert!(pd.mame);
    assert!(pd.dat_type == DatType::Split);
    let parent = pd.parent_clone_map.get(b"cloneg").expect("clone mapped");
    assert_eq!(parent.clone(), b"parentg".to_vec());
    assert!(pd.parent_clone_map.get(b"parentg").is_none());
}

#[test]
fn detector_recognizes_mame_content() {
    assert!(is_mame_xml(b"<mame build=\"0.1\"><machine name=\"a\"/></mame>"));
    assert!(is_mame_xml(b"<!DOCTYPE mame [ ]>"));
    assert!(is_mame_xml(b"<game name=\"a\" cloneof=\"b\"/>"));
    assert!(is_mame_xml(b"<machine name=\"neogeo\"/>x name=\"neogeo\""));
    assert!(!is_mame_xml(b"<datafile><game name=\"Foo\"/></datafile>"));
    let header = b"<header>My Arcade MAME set</header><game name=\"a\"/>";
    assert!(is_mame_xml(header));
}

#[test]
fn detector_recognizes_mame_filenames() {
    assert!(is_mame_filename(b"MAME 0.230.dat"));
    assert!(is_mame_filename(b"arcade set.xml"));
    assert!(is_mame_filename(b"roms (split).dat"));
    assert!(!is_mame_filename(b"No-Intro GBA.dat"));
}

#[test]
fn detector_set_type_from_filename_and_content() {
    assert!(detect_dat_type(b"set (non-merged).dat", None) == DatType::NonMerged);
    assert!(detect_dat_type(b"set nonmerged.dat", None) == DatType::NonMerged);
    assert!(detect_dat_type(b"set (split).dat", None) == DatType::Split);
    assert!(detect_dat_type(b"set merged.dat", None) == DatType::Merged);
    assert!(detect_dat_type(b"plain.dat", None) == DatType::Standard);
    assert!(detect_dat_type(b"plain.dat", Some(b"a split set")) == DatType::Split);
    assert!(detect_dat_type(b"plain.dat", Some(b"fully merged")) == DatType::Merged);
    assert!(detect_dat_type(b"plain.dat", Some(b"nothing here")) == DatType::Standard);
}

#[test]
fn set_type_display_names() {
    assert_eq!(dat_type_name(&DatType::NonMerged), "Non-merged (self-contained games)");
    assert_eq!(dat_type_name(&DatType::Split), "Split (clones depend on parents)");
    assert_eq!(dat_type_name(&DatType::Merged), "Merged (clones in parent folders)");
    assert_eq!(dat_type_name(&DatType::Standard), "Standard");
}
