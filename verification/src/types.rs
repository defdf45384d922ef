//! Shared data model: catalog entries, declared digests, catalog dialects and
//! per-run results. Strings are byte vectors; each type has a ghost model.

use vstd::prelude::*;

verus! {

/// Declared digests of one catalog entry, as lowercase hex byte strings.
/// A well-formed catalog entry declares at least one of them.
#[derive(Debug)]
pub struct RomHashes {
    pub sha1: Option<Vec<u8>>,
    pub md5: Option<Vec<u8>>,
    pub crc: Option<Vec<u8>>,
}

pub ghost struct HashesModel {
    pub sha1: Option<Seq<u8>>,
    pub md5: Option<Seq<u8>>,
    pub crc: Option<Seq<u8>>,
}

impl View for RomHashes {
    type V = HashesModel;

    open spec fn view(&self) -> HashesModel {
        HashesModel {
            sha1: match self.sha1 {
                Some(ref v) => Some(v@),
                None => None,
            },
            md5: match self.md5 {
                Some(ref v) => Some(v@),
                None => None,
            },
            crc: match self.crc {
                Some(ref v) => Some(v@),
                None => None,
            },
        }
    }
}

impl HashesModel {
    /// The entry declares `h` under at least one digest kind.
    pub open spec fn declares(self, h: Seq<u8>) -> bool {
        self.sha1 == Some(h) || self.md5 == Some(h) || self.crc == Some(h)
    }

    pub open spec fn any_present(self) -> bool {
        self.sha1 is Some || self.md5 is Some || self.crc is Some
    }
}

impl RomHashes {
    pub fn empty() -> (r: RomHashes)
        ensures
            r@.sha1 is None,
            r@.md5 is None,
            r@.crc is None,
    {
        RomHashes { sha1: None, md5: None, crc: None }
    }

    pub fn duplicate(&self) -> (r: RomHashes)
        ensures
            r@ == self@,
    {
        RomHashes {
            sha1: match self.sha1 {
                Some(ref v) => Some(crate::bytes::copy_bytes(v.as_slice())),
                None => None,
            },
            md5: match self.md5 {
                Some(ref v) => Some(crate::bytes::copy_bytes(v.as_slice())),
                None => None,
            },
            crc: match self.crc {
                Some(ref v) => Some(crate::bytes::copy_bytes(v.as_slice())),
                None => None,
            },
        }
    }
}

/// One expected file or disk image declared by the catalog.
#[derive(Debug)]
pub struct RomEntry {
    pub name: Vec<u8>,
    pub game: Vec<u8>,
    pub hashes: RomHashes,
    pub is_disk: bool,
}

pub ghost struct EntryModel {
    pub name: Seq<u8>,
    pub game: Seq<u8>,
    pub hashes: HashesModel,
    pub is_disk: bool,
}

impl View for RomEntry {
    type V = EntryModel;

    open spec fn view(&self) -> EntryModel {
        EntryModel { name: self.name@, game: self.game@, hashes: self.hashes@, is_disk: self.is_disk }
    }
}

impl RomEntry {
    pub fn duplicate(&self) -> (r: RomEntry)
        ensures
            r@ == self@,
    {
        RomEntry {
            name: crate::bytes::copy_bytes(self.name.as_slice()),
            game: crate::bytes::copy_bytes(self.game.as_slice()),
            hashes: self.hashes.duplicate(),
            is_disk: self.is_disk,
        }
    }
}

/// Set-type convention of a hierarchical catalog: how clone games share
/// content with their parents.
#[derive(Clone, Copy, Debug, PartialEq, Eq, Structural)]
pub enum DatType {
    NonMerged,
    Split,
    Merged,
    Standard,
}

/// Digests of one scanned file together with the catalog entries matching any
/// of them.
#[derive(Debug)]
pub struct FileHash {
    pub path: Vec<u8>,
    pub sha1: Vec<u8>,
    pub md5: Vec<u8>,
    pub crc: Vec<u8>,
    pub matching_entries: Vec<RomEntry>,
}

pub ghost struct FileHashModel {
    pub path: Seq<u8>,
    pub sha1: Seq<u8>,
    pub md5: Seq<u8>,
    pub crc: Seq<u8>,
    pub matching_entries: Seq<EntryModel>,
}

impl View for FileHash {
    type V = FileHashModel;

    open spec fn view(&self) -> FileHashModel {
        FileHashModel {
            path: self.path@,
            sha1: self.sha1@,
            md5: self.md5@,
            crc: self.crc@,
            matching_entries: self.matching_entries@.map_values(|e: RomEntry| e@),
        }
    }
}

/// How the engine classified one scanned file.
#[derive(Debug)]
pub enum ProcessResult {
    /// Placed for this game (name of the first game satisfied).
    Organized(Vec<u8>),
    /// Every destination already existed; the file is surplus.
    Duplicate(Vec<u8>),
    /// No active catalog entry wants the file.
    Unknown(Vec<u8>),
}

} // verus!
