//! Catalog ingestion: dialect and set-type detection over a bounded leading
//! sample plus the file name, then the structural parse.

use vstd::prelude::*;
use crate::detector::{detect_dat_type, detect_spec, is_mame_filename, is_mame_xml,
    mame_filename_spec, mame_xml_spec};
use crate::types::DatType;
use crate::xml::{catalog_db, catalog_games, catalog_parents, catalog_spec, db_get,
    indexed_entries_ok, keys_lowercase, parents_get, ParsedDat, ParseError, XmlParser};

verus! {

/// Size of the leading sample inspected for dialect and set-type signals.
pub open spec fn sample_len(n: nat) -> nat {
    if n < 65536 {
        n
    } else {
        65536
    }
}

/// Parse a catalog: the dialect is detected from a bounded leading sample
/// and the file name, the set type from the same signals, and the markup is
/// then walked; the result is pinned to the content by `catalog_spec`.
pub fn parse_dat_file(filename: &[u8], content: &[u8]) -> (r: Result<ParsedDat, ParseError>)
    ensures
        match r {
            Ok(pd) => {
                &&& pd.rom_db.wf()
                &&& pd.all_games.wf()
                &&& pd.parent_clone_map.wf()
                &&& indexed_entries_ok(pd.rom_db, pd.all_games)
                &&& keys_lowercase(pd.rom_db)
                &&& pd.mame == (mame_xml_spec(content@.take(sample_len(content@.len()) as int))
                    || mame_filename_spec(filename@))
                &&& pd.dat_type == detect_spec(
                    filename@,
                    Some(content@.take(sample_len(content@.len()) as int)),
                )
                &&& (!pd.mame ==> pd.parent_clone_map.keys@.len() == 0)
                &&& (forall|g: Seq<u8>| #[trigger] pd.all_games.has(g) ==> g.len() > 0)
                &&& catalog_spec(content@, pd.mame) is Some
                &&& forall|h: Seq<u8>|
                    #[trigger] pd.rom_db.lookup(h) == db_get(
                        catalog_db(content@, pd.mame),
                        h,
                    )
                &&& forall|g: Seq<u8>|
                    #[trigger] pd.all_games.has(g) == catalog_games(
                        content@,
                        pd.mame,
                    ).contains(g)
                &&& forall|c: Seq<u8>|
                    #[trigger] pd.parent_clone_map.lookup(c) == parents_get(
                        catalog_parents(content@, pd.mame),
                        c,
                    )
            },
            Err(_) => catalog_spec(
                content@,
                mame_xml_spec(content@.take(sample_len(content@.len()) as int))
                    || mame_filename_spec(filename@),
            ) is None,
        },
{
    let cap: usize = if content.len() < 65536 {
        content.len()
    } else {
        65536
    };
    let sample = crate::bytes::copy_range(content, 0, cap);
    proof {
        assert(sample@ == content@.take(sample_len(content@.len()) as int));
    }
    let mame = is_mame_xml(sample.as_slice()) || is_mame_filename(filename);
    let dat_type: DatType = detect_dat_type(filename, Some(sample.as_slice()));
    let parser = XmlParser::new();
    parser.parse(content, mame, dat_type)
}

} // verus!
