//! The catalog parser: a streaming walk over raw catalog bytes that
//! recognizes the two collection-unit spellings, the two content-entry
//! shapes and the disk-image shape, registers every entry under each digest
//! it declares, and rejects malformed markup.

use vstd::prelude::*;
use crate::bytes::{bytes_eq, copy_bytes, copy_range, lower, to_lower};
use crate::db::{GameSet, RomDb};
use crate::store::NameMap;
use crate::types::{DatType, EntryModel, HashesModel, RomEntry, RomHashes};

verus! {

/// A structural fault in the catalog markup, at a byte offset.
#[derive(Debug)]
pub struct ParseError {
    pub at: usize,
}

/// The normalized catalog: digest index, declared game names, set type and
/// parent/clone map, plus the detected dialect.
pub struct ParsedDat {
    pub rom_db: RomDb,
    pub all_games: GameSet,
    pub dat_type: DatType,
    pub parent_clone_map: NameMap,
    pub mame: bool,
}

/// Every entry of the index is reachable under each digest it declares,
/// belongs to a declared game, and a disk-image entry declares exactly a
/// sha1 digest.
pub open spec fn entry_ok(h: Seq<u8>, e: EntryModel, games: GameSet) -> bool {
    &&& e.hashes.declares(h)
    &&& games.has(e.game)
    &&& (e.is_disk ==> e.hashes.sha1 is Some && e.hashes.md5 is None && e.hashes.crc is None)
}

pub open spec fn indexed_entries_ok(db: RomDb, games: GameSet) -> bool {
    forall|h: Seq<u8>, j: int|
        0 <= j < db.lookup(h).len() ==> entry_ok(h, #[trigger] db.lookup(h)[j], games)
}

/// Digest keys are stored lower-cased.
pub open spec fn keys_lowercase(db: RomDb) -> bool {
    forall|h: Seq<u8>| #[trigger] db.contains_hash(h) ==> h == lower(h)
}

proof fn lemma_lower_idempotent(s: Seq<u8>)
    ensures
        lower(lower(s)) == lower(s),
{
    assert(lower(lower(s)) =~= lower(s));
}

/// Growing the game set preserves the index invariant.
proof fn lemma_inv_mono(db: RomDb, g1: GameSet, g2: GameSet)
    requires
        indexed_entries_ok(db, g1),
        forall|x: Seq<u8>| #[trigger] g1.has(x) ==> g2.has(x),
    ensures
        indexed_entries_ok(db, g2),
{
    assert forall|h: Seq<u8>, j: int|
        0 <= j < db.lookup(h).len() implies entry_ok(h, #[trigger] db.lookup(h)[j], g2) by {
        assert(entry_ok(h, db.lookup(h)[j], g1));
    }
}

/// Register one entry under one digest key, preserving the index invariant
/// and realizing one `db_put` of the catalog model.
fn index_entry(
    db: &mut RomDb,
    games: &GameSet,
    key: &Vec<u8>,
    e: &RomEntry,
    Ghost(m): Ghost<Map<Seq<u8>, Seq<EntryModel>>>,
)
    requires
        old(db).wf(),
        indexed_entries_ok(*old(db), *games),
        keys_lowercase(*old(db)),
        db_matches(*old(db), m),
        e@.hashes.declares(key@),
        games.has(e@.game),
        e@.is_disk ==> e@.hashes.sha1 is Some && e@.hashes.md5 is None && e@.hashes.crc is None,
        key@ == lower(key@),
    ensures
        final(db).wf(),
        indexed_entries_ok(*final(db), *games),
        keys_lowercase(*final(db)),
        db_matches(*final(db), db_put(m, key@, e@)),
{
    let copy = e.duplicate();
    db.insert_entry(key.as_slice(), copy);
    proof {
        let pre = *old(db);
        assert forall|h: Seq<u8>| #[trigger] db.lookup(h) == db_get(db_put(m, key@, e@), h) by {
            if h == key@ {
                assert(db.lookup(h) == pre.lookup(h).push(e@));
                assert(pre.lookup(h) == db_get(m, h));
                assert(db_get(db_put(m, key@, e@), h) == db_get(m, h).push(e@));
            } else {
                assert(db.lookup(h) == pre.lookup(h));
                assert(db_get(db_put(m, key@, e@), h) == db_get(m, h));
            }
        }
        assert forall|h: Seq<u8>, j: int|
            0 <= j < db.lookup(h).len() implies entry_ok(h, #[trigger] db.lookup(h)[j], *games) by {
            if h == key@ {
                assert(db.lookup(h) == pre.lookup(h).push(e@));
                if j < pre.lookup(h).len() {
                    assert(db.lookup(h)[j] == pre.lookup(h)[j]);
                    assert(entry_ok(h, pre.lookup(h)[j], *games));
                } else {
                    assert(db.lookup(h)[j] == e@);
                }
            } else {
                assert(db.lookup(h) == pre.lookup(h));
                assert(entry_ok(h, pre.lookup(h)[j], *games));
            }
        }
        assert forall|h: Seq<u8>| #[trigger] db.contains_hash(h) implies h == lower(h) by {
            if h != key@ {
                assert(db.contains_hash(h) == pre.contains_hash(h));
            }
        }
    }
}

fn tag_game() -> (r: Vec<u8>)
    ensures
        r@ == sp_game(),
{
    let r: Vec<u8> = vec![103u8, 97u8, 109u8, 101u8];
    proof {
        assert(r@ =~= sp_game());
    }
    r
}

fn tag_machine() -> (r: Vec<u8>)
    ensures
        r@ == sp_machine(),
{
    let r: Vec<u8> = vec![109u8, 97u8, 99u8, 104u8, 105u8, 110u8, 101u8];
    proof {
        assert(r@ =~= sp_machine());
    }
    r
}

fn tag_rom() -> (r: Vec<u8>)
    ensures
        r@ == sp_rom(),
{
    let r: Vec<u8> = vec![114u8, 111u8, 109u8];
    proof {
        assert(r@ =~= sp_rom());
    }
    r
}

fn tag_disk() -> (r: Vec<u8>)
    ensures
        r@ == sp_disk(),
{
    let r: Vec<u8> = vec![100u8, 105u8, 115u8, 107u8];
    proof {
        assert(r@ =~= sp_disk());
    }
    r
}

fn tag_name() -> (r: Vec<u8>)
    ensures
        r@ == sp_name(),
{
    let r: Vec<u8> = vec![110u8, 97u8, 109u8, 101u8];
    proof {
        assert(r@ =~= sp_name());
    }
    r
}

fn tag_sha1() -> (r: Vec<u8>)
    ensures
        r@ == sp_sha1(),
{
    let r: Vec<u8> = vec![115u8, 104u8, 97u8, 49u8];
    proof {
        assert(r@ =~= sp_sha1());
    }
    r
}

fn tag_md5() -> (r: Vec<u8>)
    ensures
        r@ == sp_md5(),
{
    let r: Vec<u8> = vec![109u8, 100u8, 53u8];
    proof {
        assert(r@ =~= sp_md5());
    }
    r
}

fn tag_crc() -> (r: Vec<u8>)
    ensures
        r@ == sp_crc(),
{
    let r: Vec<u8> = vec![99u8, 114u8, 99u8];
    proof {
        assert(r@ =~= sp_crc());
    }
    r
}

fn tag_cloneof() -> (r: Vec<u8>)
    ensures
        r@ == sp_cloneof(),
{
    let r: Vec<u8> = vec![99u8, 108u8, 111u8, 110u8, 101u8, 111u8, 102u8];
    proof {
        assert(r@ =~= sp_cloneof());
    }
    r
}

fn tag_romof() -> (r: Vec<u8>)
    ensures
        r@ == sp_romof(),
{
    let r: Vec<u8> = vec![114u8, 111u8, 109u8, 111u8, 102u8];
    proof {
        assert(r@ =~= sp_romof());
    }
    r
}

fn tag_amp() -> (r: Vec<u8>)
    ensures
        r@ == sp_amp(),
{
    let r: Vec<u8> = vec![97u8, 109u8, 112u8];
    proof {
        assert(r@ =~= sp_amp());
    }
    r
}

fn tag_lt() -> (r: Vec<u8>)
    ensures
        r@ == sp_lt(),
{
    let r: Vec<u8> = vec![108u8, 116u8];
    proof {
        assert(r@ =~= sp_lt());
    }
    r
}

fn tag_gt() -> (r: Vec<u8>)
    ensures
        r@ == sp_gt(),
{
    let r: Vec<u8> = vec![103u8, 116u8];
    proof {
        assert(r@ =~= sp_gt());
    }
    r
}

fn tag_quot() -> (r: Vec<u8>)
    ensures
        r@ == sp_quot(),
{
    let r: Vec<u8> = vec![113u8, 117u8, 111u8, 116u8];
    proof {
        assert(r@ =~= sp_quot());
    }
    r
}

fn tag_apos() -> (r: Vec<u8>)
    ensures
        r@ == sp_apos(),
{
    let r: Vec<u8> = vec![97u8, 112u8, 111u8, 115u8];
    proof {
        assert(r@ =~= sp_apos());
    }
    r
}


// ---------------------------------------------------------------------------
// Specification mirror of the byte walk
// ---------------------------------------------------------------------------
/// A tokenizer event at the specification level.
pub ghost enum SpEvent {
    Start { name: Seq<u8>, attrs: Seq<(Seq<u8>, Seq<u8>)>, self_closing: bool },
    End { name: Seq<u8> },
    Eof,
}

pub open spec fn attrs_model(attrs: Seq<(Vec<u8>, Vec<u8>)>) -> Seq<(Seq<u8>, Seq<u8>)> {
    attrs.map_values(|p: (Vec<u8>, Vec<u8>)| (p.0@, p.1@))
}

pub open spec fn opt_model(o: Option<Vec<u8>>) -> Option<Seq<u8>> {
    match o {
        Some(v) => Some(v@),
        None => None,
    }
}

pub open spec fn sp_game() -> Seq<u8> {
    seq![103u8, 97u8, 109u8, 101u8]
}

pub open spec fn sp_machine() -> Seq<u8> {
    seq![109u8, 97u8, 99u8, 104u8, 105u8, 110u8, 101u8]
}

pub open spec fn sp_rom() -> Seq<u8> {
    seq![114u8, 111u8, 109u8]
}

pub open spec fn sp_disk() -> Seq<u8> {
    seq![100u8, 105u8, 115u8, 107u8]
}

pub open spec fn sp_name() -> Seq<u8> {
    seq![110u8, 97u8, 109u8, 101u8]
}

pub open spec fn sp_sha1() -> Seq<u8> {
    seq![115u8, 104u8, 97u8, 49u8]
}

pub open spec fn sp_md5() -> Seq<u8> {
    seq![109u8, 100u8, 53u8]
}

pub open spec fn sp_crc() -> Seq<u8> {
    seq![99u8, 114u8, 99u8]
}

pub open spec fn sp_cloneof() -> Seq<u8> {
    seq![99u8, 108u8, 111u8, 110u8, 101u8, 111u8, 102u8]
}

pub open spec fn sp_romof() -> Seq<u8> {
    seq![114u8, 111u8, 109u8, 111u8, 102u8]
}

pub open spec fn sp_amp() -> Seq<u8> {
    seq![97u8, 109u8, 112u8]
}

pub open spec fn sp_lt() -> Seq<u8> {
    seq![108u8, 116u8]
}

pub open spec fn sp_gt() -> Seq<u8> {
    seq![103u8, 116u8]
}

pub open spec fn sp_quot() -> Seq<u8> {
    seq![113u8, 117u8, 111u8, 116u8]
}

pub open spec fn sp_apos() -> Seq<u8> {
    seq![97u8, 112u8, 111u8, 115u8]
}

pub open spec fn sp_is_ws(b: u8) -> bool {
    b == 32 || b == 9 || b == 10 || b == 13
}

/// Length of the run of name bytes from `p` (stopped by whitespace, `>`, `/`).
pub open spec fn sp_name_len(buf: Seq<u8>, p: int) -> nat
    decreases buf.len() - p,
{
    if p < 0 || p >= buf.len() || sp_is_ws(buf[p]) || buf[p] == 62 || buf[p] == 47 {
        0
    } else {
        1 + sp_name_len(buf, p + 1)
    }
}

/// Length of the run of whitespace from `p`.
pub open spec fn sp_ws_len(buf: Seq<u8>, p: int) -> nat
    decreases buf.len() - p,
{
    if p < 0 || p >= buf.len() || !sp_is_ws(buf[p]) {
        0
    } else {
        1 + sp_ws_len(buf, p + 1)
    }
}

/// Length of the run of attribute-name bytes (stopped by `=`, `>`, `/`, ws).
pub open spec fn sp_attr_name_len(buf: Seq<u8>, p: int) -> nat
    decreases buf.len() - p,
{
    if p < 0 || p >= buf.len() || buf[p] == 61 || buf[p] == 62 || buf[p] == 47 || sp_is_ws(
        buf[p],
    ) {
        0
    } else {
        1 + sp_attr_name_len(buf, p + 1)
    }
}

/// Length of the run of end-tag name bytes (stopped by `>` or whitespace).
pub open spec fn sp_end_name_len(buf: Seq<u8>, p: int) -> nat
    decreases buf.len() - p,
{
    if p < 0 || p >= buf.len() || buf[p] == 62 || sp_is_ws(buf[p]) {
        0
    } else {
        1 + sp_end_name_len(buf, p + 1)
    }
}

/// First position at or after `p` holding byte `b`.
pub open spec fn sp_find_pos(buf: Seq<u8>, p: int, b: u8) -> Option<int>
    decreases buf.len() - p,
{
    if p < 0 || p >= buf.len() {
        None
    } else if buf[p] == b {
        Some(p)
    } else {
        sp_find_pos(buf, p + 1, b)
    }
}

/// First position at or after `q` where a comment closes.
pub open spec fn sp_comment_pos(buf: Seq<u8>, q: int) -> Option<int>
    decreases buf.len() - q,
{
    if q < 0 || q + 3 > buf.len() {
        None
    } else if buf[q] == 45 && buf[q + 1] == 45 && buf[q + 2] == 62 {
        Some(q)
    } else {
        sp_comment_pos(buf, q + 1)
    }
}

/// First position at or after `q` where a processing instruction closes.
pub open spec fn sp_pi_pos(buf: Seq<u8>, q: int) -> Option<int>
    decreases buf.len() - q,
{
    if q < 0 || q + 2 > buf.len() {
        None
    } else if buf[q] == 63 && buf[q + 1] == 62 {
        Some(q)
    } else {
        sp_pi_pos(buf, q + 1)
    }
}

/// First semicolon at or after `j`, within twelve bytes of `i`.
pub open spec fn sp_semi_pos(raw: Seq<u8>, i: int, j: int) -> Option<int>
    decreases raw.len() - j,
{
    if j < 0 || j >= raw.len() || j - i >= 12 {
        None
    } else if raw[j] == 59 {
        Some(j)
    } else {
        sp_semi_pos(raw, i, j + 1)
    }
}

/// Value of one numeric-reference digit.
pub open spec fn sp_digit(b: u8, hex: bool) -> Option<int> {
    if 48 <= b && b <= 57 {
        Some(b - 48)
    } else if hex && 97 <= b && b <= 102 {
        Some(b - 87)
    } else if hex && 65 <= b && b <= 70 {
        Some(b - 55)
    } else {
        None
    }
}

pub open spec fn sp_decode_from(body: Seq<u8>, i: int, hex: bool, v: int) -> Option<int>
    decreases body.len() - i,
{
    if i < 0 {
        None
    } else if i >= body.len() {
        if v > 0x0010_ffff {
            None
        } else {
            Some(v)
        }
    } else {
        match sp_digit(body[i], hex) {
            None => None,
            Some(d) => {
                if v >= 0x0011_0000 {
                    None
                } else {
                    let v2 = v * (if hex {
                        16int
                    } else {
                        10int
                    }) + d;
                    if v2 > 0x0011_0000 {
                        None
                    } else {
                        sp_decode_from(body, i + 1, hex, v2)
                    }
                }
            },
        }
    }
}

/// Code point of a numeric character reference body, if valid.
pub open spec fn sp_decode_numeric(body: Seq<u8>) -> Option<int> {
    let hex = body.len() >= 2 && (body[1] == 120 || body[1] == 88);
    let start: int = if hex {
        2
    } else {
        1
    };
    if start >= body.len() {
        None
    } else {
        sp_decode_from(body, start, hex, 0)
    }
}

/// UTF-8 encoding of one code point.
pub open spec fn sp_utf8(cp: u32) -> Seq<u8> {
    if cp < 0x80 {
        seq![cp as u8]
    } else if cp < 0x800 {
        seq![(0xc0 | (cp >> 6)) as u8, (0x80 | (cp & 0x3f)) as u8]
    } else if cp < 0x10000 {
        seq![
            (0xe0 | (cp >> 12)) as u8,
            (0x80 | ((cp >> 6) & 0x3f)) as u8,
            (0x80 | (cp & 0x3f)) as u8,
        ]
    } else {
        seq![
            (0xf0 | (cp >> 18)) as u8,
            (0x80 | ((cp >> 12) & 0x3f)) as u8,
            (0x80 | ((cp >> 6) & 0x3f)) as u8,
            (0x80 | (cp & 0x3f)) as u8,
        ]
    }
}

/// Decoded form of an attribute value from position `i`: the five named
/// entities and valid numeric references collapse; anything else (including
/// an unterminated or unknown reference) stays verbatim.
pub open spec fn sp_unescape_from(raw: Seq<u8>, i: int) -> Seq<u8>
    decreases raw.len() - i,
{
    if i < 0 || i >= raw.len() {
        Seq::<u8>::empty()
    } else {
        let b = raw[i];
        if b != 38 {
            seq![b] + sp_unescape_from(raw, i + 1)
        } else {
            match sp_semi_pos(raw, i, i + 1) {
                None => seq![b] + sp_unescape_from(raw, i + 1),
                Some(semi) => {
                    if semi <= i || semi >= raw.len() {
                        seq![b] + sp_unescape_from(raw, i + 1)
                    } else {
                        let body = raw.subrange(i + 1, semi);
                        if body == sp_amp() {
                            seq![38u8] + sp_unescape_from(raw, semi + 1)
                        } else if body == sp_lt() {
                            seq![60u8] + sp_unescape_from(raw, semi + 1)
                        } else if body == sp_gt() {
                            seq![62u8] + sp_unescape_from(raw, semi + 1)
                        } else if body == sp_quot() {
                            seq![34u8] + sp_unescape_from(raw, semi + 1)
                        } else if body == sp_apos() {
                            seq![39u8] + sp_unescape_from(raw, semi + 1)
                        } else if body.len() >= 2 && body[0] == 35 {
                            match sp_decode_numeric(body) {
                                Some(cp) => {
                                    if 0 <= cp <= 0x0010_ffff {
                                        sp_utf8(cp as u32) + sp_unescape_from(raw, semi + 1)
                                    } else {
                                        seq![b] + sp_unescape_from(raw, i + 1)
                                    }
                                },
                                None => seq![b] + sp_unescape_from(raw, i + 1),
                            }
                        } else {
                            seq![b] + sp_unescape_from(raw, i + 1)
                        }
                    }
                },
            }
        }
    }
}

/// First value of the named attribute.
pub open spec fn sp_attr_value(attrs: Seq<(Seq<u8>, Seq<u8>)>, key: Seq<u8>) -> Option<Seq<u8>>
    decreases attrs.len(),
{
    if attrs.len() == 0 {
        None
    } else if attrs[0].0 == key {
        Some(attrs[0].1)
    } else {
        sp_attr_value(attrs.skip(1), key)
    }
}

pub open spec fn sp_attr_or_empty(attrs: Seq<(Seq<u8>, Seq<u8>)>, key: Seq<u8>) -> Seq<u8> {
    match sp_attr_value(attrs, key) {
        Some(v) => v,
        None => Seq::<u8>::empty(),
    }
}

/// The named attribute lower-cased, as a digest field.
pub open spec fn sp_hash_attr(attrs: Seq<(Seq<u8>, Seq<u8>)>, key: Seq<u8>) -> Option<Seq<u8>> {
    match sp_attr_value(attrs, key) {
        Some(v) => Some(lower(v)),
        None => None,
    }
}


/// Attribute list of a start tag from position `p`, ending the tag.
pub open spec fn sp_attrs(
    buf: Seq<u8>,
    p: int,
    name: Seq<u8>,
    attrs: Seq<(Seq<u8>, Seq<u8>)>,
) -> Option<(SpEvent, int)>
    decreases buf.len() - p,
{
    if p < 0 || p > buf.len() {
        None
    } else {
        let p2 = p + sp_ws_len(buf, p);
        if p2 >= buf.len() {
            None
        } else if buf[p2] == 62 {
            Some((SpEvent::Start { name, attrs, self_closing: false }, p2 + 1))
        } else if buf[p2] == 47 {
            if p2 + 1 < buf.len() && buf[p2 + 1] == 62 {
                Some((SpEvent::Start { name, attrs, self_closing: true }, p2 + 2))
            } else {
                None
            }
        } else {
            let an = sp_attr_name_len(buf, p2);
            if an == 0 {
                None
            } else {
                let p3 = p2 + an;
                if p3 >= buf.len() {
                    None
                } else {
                    let aname = buf.subrange(p2, p3);
                    let p4 = p3 + sp_ws_len(buf, p3);
                    if p4 >= buf.len() || buf[p4] != 61 {
                        None
                    } else {
                        let p6 = p4 + 1 + sp_ws_len(buf, p4 + 1);
                        if p6 >= buf.len() || (buf[p6] != 34 && buf[p6] != 39) {
                            None
                        } else {
                            let quote = buf[p6];
                            match sp_find_pos(buf, p6 + 1, quote) {
                                None => None,
                                Some(q) => {
                                    if q < p6 + 1 || q >= buf.len() {
                                        None
                                    } else {
                                        let value = sp_unescape_from(
                                            buf.subrange(p6 + 1, q),
                                            0,
                                        );
                                        sp_attrs(buf, q + 1, name, attrs.push((aname, value)))
                                    }
                                },
                            }
                        }
                    }
                }
            }
        }
    }
}

/// One start tag's event, beginning right after `<`.
pub open spec fn sp_start_tag(buf: Seq<u8>, tag_start: int) -> Option<(SpEvent, int)> {
    if tag_start < 0 || tag_start > buf.len() {
        None
    } else {
        let p1 = tag_start + sp_name_len(buf, tag_start);
        if p1 == tag_start || p1 > buf.len() {
            None
        } else {
            sp_attrs(buf, p1, buf.subrange(tag_start, p1), Seq::<(Seq<u8>, Seq<u8>)>::empty())
        }
    }
}

/// The next markup event at or after `pos`: text, comments, declarations and
/// processing instructions are skipped; a structural fault is `None`.
pub open spec fn sp_next_event(buf: Seq<u8>, pos: int) -> Option<(SpEvent, int)>
    decreases buf.len() - pos,
{
    if pos < 0 || pos > buf.len() {
        None
    } else if pos == buf.len() {
        Some((SpEvent::Eof, pos))
    } else if buf[pos] != 60 {
        sp_next_event(buf, pos + 1)
    } else if pos + 1 >= buf.len() {
        None
    } else {
        let b1 = buf[pos + 1];
        if b1 == 33 {
            if buf.len() - pos >= 4 && buf[pos + 2] == 45 && buf[pos + 3] == 45 {
                if pos + 4 > buf.len() - 3 {
                    None
                } else {
                    match sp_comment_pos(buf, pos + 4) {
                        None => None,
                        Some(q) => {
                            if q < pos + 4 || q + 3 > buf.len() {
                                None
                            } else {
                                sp_next_event(buf, q + 3)
                            }
                        },
                    }
                }
            } else {
                match sp_find_pos(buf, pos + 2, 62) {
                    None => None,
                    Some(q) => {
                        if q < pos + 2 || q >= buf.len() {
                            None
                        } else {
                            sp_next_event(buf, q + 1)
                        }
                    },
                }
            }
        } else if b1 == 63 {
            if pos + 2 > buf.len() - 2 {
                None
            } else {
                match sp_pi_pos(buf, pos + 2) {
                    None => None,
                    Some(q) => {
                        if q < pos + 2 || q + 2 > buf.len() {
                            None
                        } else {
                            sp_next_event(buf, q + 2)
                        }
                    },
                }
            }
        } else if b1 == 47 {
            let ne = pos + 2 + sp_end_name_len(buf, pos + 2);
            if ne == pos + 2 || ne > buf.len() {
                None
            } else {
                let name = buf.subrange(pos + 2, ne);
                let p3 = ne + sp_ws_len(buf, ne);
                if p3 >= buf.len() || buf[p3] != 62 {
                    None
                } else {
                    Some((SpEvent::End { name }, p3 + 1))
                }
            }
        } else {
            sp_start_tag(buf, pos + 1)
        }
    }
}

/// One tokenizer event.
pub enum XmlEvent {
    Start { name: Vec<u8>, attrs: Vec<(Vec<u8>, Vec<u8>)>, self_closing: bool },
    End { name: Vec<u8> },
    Eof,
}

impl View for XmlEvent {
    type V = SpEvent;

    open spec fn view(&self) -> SpEvent {
        match self {
            XmlEvent::Start { name, attrs, self_closing } => SpEvent::Start {
                name: name@,
                attrs: attrs_model(attrs@),
                self_closing: *self_closing,
            },
            XmlEvent::End { name } => SpEvent::End { name: name@ },
            XmlEvent::Eof => SpEvent::Eof,
        }
    }
}

fn is_ws_byte(b: u8) -> (r: bool)
    ensures
        r == sp_is_ws(b),
{
    b == 32 || b == 9 || b == 10 || b == 13
}

/// Decode character references in an attribute value, per `sp_unescape_from`.
fn unescape(raw: &[u8]) -> (r: Vec<u8>)
    ensures
        r@ == sp_unescape_from(raw@, 0),
{
    let mut out: Vec<u8> = Vec::new();
    let mut i: usize = 0;
    proof {
        assert(out@ + sp_unescape_from(raw@, 0) =~= sp_unescape_from(raw@, 0));
    }
    while i < raw.len()
        invariant
            0 <= i <= raw@.len(),
            out@ + sp_unescape_from(raw@, i as int) == sp_unescape_from(raw@, 0),
        decreases raw@.len() - i,
    {
        let ghost out_pre = out@;
        let b = raw[i];
        if b != 38 {
            out.push(b);
            proof {
                assert(out@ + sp_unescape_from(raw@, i + 1 as int) =~= out_pre + (seq![b]
                    + sp_unescape_from(raw@, i + 1 as int)));
            }
            i = i + 1;
        } else {
            // find the terminating semicolon within a short window
            let mut j: usize = i + 1;
            let mut semi: usize = 0;
            let mut found: bool = false;
            while j < raw.len() && j - i < 12
                invariant_except_break
                    i + 1 <= j <= raw@.len(),
                    !found,
                    sp_semi_pos(raw@, i as int, i + 1 as int) == sp_semi_pos(
                        raw@,
                        i as int,
                        j as int,
                    ),
                ensures
                    found ==> i < semi < raw@.len() && raw@[semi as int] == 59
                        && sp_semi_pos(raw@, i as int, i + 1 as int) == Some(semi as int),
                    !found ==> sp_semi_pos(raw@, i as int, i + 1 as int) is None,
                decreases raw@.len() - j,
            {
                if raw[j] == 59 {
                    semi = j;
                    found = true;
                    break ;
                }
                j = j + 1;
            }
            if !found {
                out.push(b);
                proof {
                    assert(out@ + sp_unescape_from(raw@, i + 1 as int) =~= out_pre + (seq![b]
                        + sp_unescape_from(raw@, i + 1 as int)));
                }
                i = i + 1;
            } else {
                let body = copy_range(raw, i + 1, semi);
                proof {
                    assert(body@ == raw@.subrange(i + 1 as int, semi as int));
                }
                if bytes_eq(body.as_slice(), tag_amp().as_slice()) {
                    out.push(38);
                } else if bytes_eq(body.as_slice(), tag_lt().as_slice()) {
                    out.push(60);
                } else if bytes_eq(body.as_slice(), tag_gt().as_slice()) {
                    out.push(62);
                } else if bytes_eq(body.as_slice(), tag_quot().as_slice()) {
                    out.push(34);
                } else if bytes_eq(body.as_slice(), tag_apos().as_slice()) {
                    out.push(39);
                } else if body.len() >= 2 && body[0] == 35 {
                    match decode_numeric(body.as_slice()) {
                        Some(cp) => {
                            push_utf8(&mut out, cp);
                            proof {
                                assert(out@ + sp_unescape_from(raw@, semi + 1 as int)
                                    =~= out_pre + (sp_utf8(cp) + sp_unescape_from(
                                    raw@,
                                    semi + 1 as int,
                                )));
                            }
                        },
                        None => {
                            out.push(b);
                            proof {
                                assert(out@ + sp_unescape_from(raw@, i + 1 as int) =~= out_pre
                                    + (seq![b] + sp_unescape_from(raw@, i + 1 as int)));
                            }
                            i = i + 1;
                            continue ;
                        },
                    }
                } else {
                    out.push(b);
                    proof {
                        assert(out@ + sp_unescape_from(raw@, i + 1 as int) =~= out_pre + (seq![
                            b,
                        ] + sp_unescape_from(raw@, i + 1 as int)));
                    }
                    i = i + 1;
                    continue ;
                }
                proof {
                    if out@ == out_pre.push(38u8) || out@ == out_pre.push(60u8) || out@
                        == out_pre.push(62u8) || out@ == out_pre.push(34u8) || out@
                        == out_pre.push(39u8) {
                        assert(out@ + sp_unescape_from(raw@, semi + 1 as int) =~= out_pre
                            + (out@.subrange(out_pre.len() as int, out@.len() as int)
                            + sp_unescape_from(raw@, semi + 1 as int)));
                    }
                }
                i = semi + 1;
            }
        }
    }
    proof {
        assert(sp_unescape_from(raw@, i as int) =~= Seq::<u8>::empty());
        assert(out@ =~= out@ + Seq::<u8>::empty());
    }
    out
}

/// Code point of a numeric character reference body, per `sp_decode_numeric`.
fn decode_numeric(body: &[u8]) -> (r: Option<u32>)
    ensures
        match r {
            Some(v) => v <= 0x0010_ffff && sp_decode_numeric(body@) == Some(v as int),
            None => sp_decode_numeric(body@) is None,
        },
{
    let hex: bool = body.len() >= 2 && (body[1] == 120 || body[1] == 88);
    let start: usize = if hex {
        2
    } else {
        1
    };
    if start >= body.len() {
        return None;
    }
    let mut v: u32 = 0;
    let mut i: usize = start;
    while i < body.len()
        invariant
            start <= i <= body@.len(),
            v <= 0x0011_0000,
            hex == (body@.len() >= 2 && (body@[1] == 120 || body@[1] == 88)),
            start == if hex { 2int } else { 1int },
            start < body@.len(),
            sp_decode_from(body@, i as int, hex, v as int) == sp_decode_numeric(body@),
        decreases body@.len() - i,
    {
        let b = body[i];
        let d: u32 = if 48 <= b && b <= 57 {
            (b - 48) as u32
        } else if hex && 97 <= b && b <= 102 {
            (b - 87) as u32
        } else if hex && 65 <= b && b <= 70 {
            (b - 55) as u32
        } else {
            return None;
        };
        if v >= 0x0011_0000 {
            return None;
        }
        v = v * if hex {
            16
        } else {
            10
        } + d;
        if v > 0x0011_0000 {
            return None;
        }
        i = i + 1;
    }
    if v > 0x0010_ffff {
        None
    } else {
        Some(v)
    }
}

/// UTF-8 encoding of one code point, per `sp_utf8`.
fn push_utf8(out: &mut Vec<u8>, cp: u32)
    requires
        cp <= 0x0010_ffff,
    ensures
        final(out)@ == old(out)@ + sp_utf8(cp),
{
    if cp < 0x80 {
        out.push(cp as u8);
        proof {
            assert(out@ =~= old(out)@ + sp_utf8(cp));
        }
    } else if cp < 0x800 {
        out.push((0xc0 | (cp >> 6)) as u8);
        out.push((0x80 | (cp & 0x3f)) as u8);
        proof {
            assert(out@ =~= old(out)@ + sp_utf8(cp));
        }
    } else if cp < 0x10000 {
        out.push((0xe0 | (cp >> 12)) as u8);
        out.push((0x80 | ((cp >> 6) & 0x3f)) as u8);
        out.push((0x80 | (cp & 0x3f)) as u8);
        proof {
            assert(out@ =~= old(out)@ + sp_utf8(cp));
        }
    } else {
        proof {
            assert(cp <= 0x0010_ffff ==> (cp >> 18) < 256) by (bit_vector);
        }
        out.push((0xf0 | (cp >> 18)) as u8);
        out.push((0x80 | ((cp >> 12) & 0x3f)) as u8);
        out.push((0x80 | ((cp >> 6) & 0x3f)) as u8);
        out.push((0x80 | (cp & 0x3f)) as u8);
        proof {
            assert(out@ =~= old(out)@ + sp_utf8(cp));
        }
    }
}

/// Parse the body of a start tag beginning right after `<`, per
/// `sp_start_tag`.
fn read_start_tag(buf: &[u8], tag_start: usize) -> (r: Result<(XmlEvent, usize), ParseError>)
    requires
        tag_start <= buf@.len(),
    ensures
        match r {
            Ok(p) => sp_start_tag(buf@, tag_start as int) == Some((p.0@, p.1 as int))
                && tag_start < p.1 <= buf@.len(),
            Err(_) => sp_start_tag(buf@, tag_start as int) is None,
        },
{
    let n: usize = buf.len();
    let mut p: usize = tag_start;
    let name_start: usize = p;
    while p < n && !is_ws_byte(buf[p]) && buf[p] != 62 && buf[p] != 47
        invariant
            tag_start <= p <= n,
            n == buf@.len(),
            p + sp_name_len(buf@, p as int) == tag_start + sp_name_len(buf@, tag_start as int),
        decreases n - p,
    {
        p = p + 1;
    }
    proof {
        assert(sp_name_len(buf@, p as int) == 0);
    }
    if p == name_start {
        return Err(ParseError { at: p });
    }
    let name = copy_range(buf, name_start, p);
    let ghost p1 = p as int;
    let mut attrs: Vec<(Vec<u8>, Vec<u8>)> = Vec::new();
    proof {
        assert(attrs_model(attrs@) =~= Seq::<(Seq<u8>, Seq<u8>)>::empty());
        assert(sp_start_tag(buf@, tag_start as int) == sp_attrs(
            buf@,
            p1,
            name@,
            attrs_model(attrs@),
        ));
    }
    loop
        invariant
            tag_start < p <= n,
            n == buf@.len(),
            sp_attrs(buf@, p as int, name@, attrs_model(attrs@)) == sp_start_tag(
                buf@,
                tag_start as int,
            ),
        decreases n - p,
    {
        let ghost p_iter = p as int;
        let ghost m_pre = attrs_model(attrs@);
        while p < n && is_ws_byte(buf[p])
            invariant
                tag_start < p <= n,
                p_iter <= p,
                n == buf@.len(),
                p + sp_ws_len(buf@, p as int) == p_iter + sp_ws_len(buf@, p_iter),
            decreases n - p,
        {
            p = p + 1;
        }
        proof {
            assert(sp_ws_len(buf@, p as int) == 0);
            assert(p == p_iter + sp_ws_len(buf@, p_iter));
        }
        if p >= n {
            return Err(ParseError { at: p });
        }
        if buf[p] == 62 {
            return Ok((XmlEvent::Start { name, attrs, self_closing: false }, p + 1));
        }
        if buf[p] == 47 {
            if p + 1 < n && buf[p + 1] == 62 {
                return Ok((XmlEvent::Start { name, attrs, self_closing: true }, p + 2));
            }
            return Err(ParseError { at: p });
        }
        let attr_start: usize = p;
        while p < n && buf[p] != 61 && buf[p] != 62 && buf[p] != 47 && !is_ws_byte(buf[p])
            invariant
                tag_start < p <= n,
                p_iter <= attr_start <= p,
                n == buf@.len(),
                p + sp_attr_name_len(buf@, p as int) == attr_start + sp_attr_name_len(
                    buf@,
                    attr_start as int,
                ),
            decreases n - p,
        {
            p = p + 1;
        }
        proof {
            assert(sp_attr_name_len(buf@, p as int) == 0);
            assert(p == attr_start + sp_attr_name_len(buf@, attr_start as int));
        }
        if p == attr_start || p >= n {
            return Err(ParseError { at: p });
        }
        let aname = copy_range(buf, attr_start, p);
        let ghost g_p3 = p as int;
        while p < n && is_ws_byte(buf[p])
            invariant
                tag_start < p <= n,
                p_iter < p,
                g_p3 <= p,
                n == buf@.len(),
                p + sp_ws_len(buf@, p as int) == g_p3 + sp_ws_len(buf@, g_p3),
            decreases n - p,
        {
            p = p + 1;
        }
        proof {
            assert(sp_ws_len(buf@, p as int) == 0);
            assert(p == g_p3 + sp_ws_len(buf@, g_p3));
        }
        if p >= n || buf[p] != 61 {
            return Err(ParseError { at: p });
        }
        p = p + 1;
        let ghost g_p5 = p as int;
        while p < n && is_ws_byte(buf[p])
            invariant
                tag_start < p <= n,
                p_iter < p,
                g_p5 <= p,
                n == buf@.len(),
                p + sp_ws_len(buf@, p as int) == g_p5 + sp_ws_len(buf@, g_p5),
            decreases n - p,
        {
            p = p + 1;
        }
        proof {
            assert(sp_ws_len(buf@, p as int) == 0);
            assert(p == g_p5 + sp_ws_len(buf@, g_p5));
        }
        if p >= n || (buf[p] != 34 && buf[p] != 39) {
            return Err(ParseError { at: p });
        }
        let quote = buf[p];
        p = p + 1;
        let val_start: usize = p;
        while p < n && buf[p] != quote
            invariant
                tag_start < p <= n,
                p_iter < val_start <= p,
                n == buf@.len(),
                sp_find_pos(buf@, val_start as int, quote) == sp_find_pos(buf@, p as int, quote),
            decreases n - p,
        {
            p = p + 1;
        }
        if p >= n {
            proof {
                assert(sp_find_pos(buf@, p as int, quote) is None);
            }
            return Err(ParseError { at: p });
        }
        proof {
            assert(sp_find_pos(buf@, val_start as int, quote) == Some(p as int));
        }
        let raw = copy_range(buf, val_start, p);
        let ghost g_q = p as int;
        p = p + 1;
        let value = unescape(raw.as_slice());
        let ghost m_next = m_pre.push((aname@, value@));
        attrs.push((aname, value));
        proof {
            assert(attrs_model(attrs@) =~= m_next);
            assert(raw@ == buf@.subrange(g_q - raw@.len() as int, g_q));
            assert(sp_attrs(buf@, p_iter, name@, m_pre) == sp_attrs(
                buf@,
                g_q + 1,
                name@,
                m_next,
            ));
        }
    }
}

/// The next markup event at or after `start`, per `sp_next_event`.
fn next_event(buf: &[u8], start: usize) -> (r: Result<(XmlEvent, usize), ParseError>)
    requires
        start <= buf@.len(),
    ensures
        match r {
            Ok(p) => {
                &&& sp_next_event(buf@, start as int) == Some((p.0@, p.1 as int))
                &&& p.1 <= buf@.len()
                &&& (p.0 is Eof ==> p.1 >= start)
                &&& (!(p.0 is Eof) ==> p.1 > start)
            },
            Err(_) => sp_next_event(buf@, start as int) is None,
        },
{
    let n: usize = buf.len();
    let mut pos: usize = start;
    while pos < n
        invariant
            start <= pos <= n,
            n == buf@.len(),
            sp_next_event(buf@, start as int) == sp_next_event(buf@, pos as int),
        decreases n - pos,
    {
        if buf[pos] != 60 {
            pos = pos + 1;
            continue ;
        }
        if pos + 1 >= n {
            return Err(ParseError { at: pos });
        }
        let b1 = buf[pos + 1];
        if b1 == 33 {
            if n - pos >= 4 && buf[pos + 2] == 45 && buf[pos + 3] == 45 {
                // comment: skip to the closing marker
                let limit: usize = n - 3;
                let mut q: usize = pos + 4;
                if q > limit {
                    return Err(ParseError { at: pos });
                }
                while q <= limit && !(buf[q] == 45 && buf[q + 1] == 45 && buf[q + 2] == 62)
                    invariant
                        pos + 4 <= q <= limit + 1,
                        limit == n - 3,
                        n == buf@.len(),
                        sp_comment_pos(buf@, (pos + 4) as int) == sp_comment_pos(
                            buf@,
                            q as int,
                        ),
                    decreases n - q,
                {
                    q = q + 1;
                }
                if q > limit {
                    proof {
                        assert(sp_comment_pos(buf@, q as int) is None);
                    }
                    return Err(ParseError { at: pos });
                }
                proof {
                    assert(sp_comment_pos(buf@, (pos + 4) as int) == Some(q as int));
                    assert(sp_next_event(buf@, pos as int) == sp_next_event(
                        buf@,
                        (q + 3) as int,
                    ));
                }
                pos = q + 3;
            } else {
                // declaration such as a document type: skip to `>`
                let mut q: usize = pos + 2;
                while q < n && buf[q] != 62
                    invariant
                        pos + 2 <= q <= n,
                        n == buf@.len(),
                        sp_find_pos(buf@, (pos + 2) as int, 62) == sp_find_pos(
                            buf@,
                            q as int,
                            62,
                        ),
                    decreases n - q,
                {
                    q = q + 1;
                }
                if q >= n {
                    proof {
                        assert(sp_find_pos(buf@, q as int, 62) is None);
                    }
                    return Err(ParseError { at: pos });
                }
                proof {
                    assert(sp_find_pos(buf@, (pos + 2) as int, 62) == Some(q as int));
                    assert(sp_next_event(buf@, pos as int) == sp_next_event(
                        buf@,
                        (q + 1) as int,
                    ));
                }
                pos = q + 1;
            }
            continue ;
        }
        if b1 == 63 {
            // processing instruction: skip to `?>`
            let limit: usize = n - 2;
            let mut q: usize = pos + 2;
            if q > limit {
                return Err(ParseError { at: pos });
            }
            while q <= limit && !(buf[q] == 63 && buf[q + 1] == 62)
                invariant
                    pos + 2 <= q <= limit + 1,
                    limit == n - 2,
                    n == buf@.len(),
                    sp_pi_pos(buf@, (pos + 2) as int) == sp_pi_pos(buf@, q as int),
                decreases n - q,
            {
                q = q + 1;
            }
            if q > limit {
                proof {
                    assert(sp_pi_pos(buf@, q as int) is None);
                }
                return Err(ParseError { at: pos });
            }
            proof {
                assert(sp_pi_pos(buf@, (pos + 2) as int) == Some(q as int));
                assert(sp_next_event(buf@, pos as int) == sp_next_event(buf@, (q + 2) as int));
            }
            pos = q + 2;
            continue ;
        }
        if b1 == 47 {
            // end tag
            let mut p: usize = pos + 2;
            let name_start: usize = p;
            while p < n && buf[p] != 62 && !is_ws_byte(buf[p])
                invariant
                    name_start <= p <= n,
                    n == buf@.len(),
                    p + sp_end_name_len(buf@, p as int) == name_start + sp_end_name_len(
                        buf@,
                        name_start as int,
                    ),
                decreases n - p,
            {
                p = p + 1;
            }
            proof {
                assert(sp_end_name_len(buf@, p as int) == 0);
            }
            if p == name_start {
                return Err(ParseError { at: p });
            }
            let name = copy_range(buf, name_start, p);
            let ghost g_ne = p as int;
            while p < n && is_ws_byte(buf[p])
                invariant
                    name_start < p <= n,
                    g_ne <= p,
                    n == buf@.len(),
                    p + sp_ws_len(buf@, p as int) == g_ne + sp_ws_len(buf@, g_ne),
                decreases n - p,
            {
                p = p + 1;
            }
            proof {
                assert(sp_ws_len(buf@, p as int) == 0);
                assert(p == g_ne + sp_ws_len(buf@, g_ne));
            }
            if p >= n || buf[p] != 62 {
                return Err(ParseError { at: p });
            }
            return Ok((XmlEvent::End { name }, p + 1));
        }
        return read_start_tag(buf, pos + 1);
    }
    Ok((XmlEvent::Eof, pos))
}

/// First value of the named attribute, per `sp_attr_value`.
fn attr_value(attrs: &Vec<(Vec<u8>, Vec<u8>)>, key: &Vec<u8>) -> (r: Option<Vec<u8>>)
    ensures
        match r {
            Some(v) => sp_attr_value(attrs_model(attrs@), key@) == Some(v@),
            None => sp_attr_value(attrs_model(attrs@), key@) is None,
        },
{
    let ghost m = attrs_model(attrs@);
    let mut i: usize = 0;
    proof {
        assert(m.skip(0) =~= m);
    }
    while i < attrs.len()
        invariant
            0 <= i <= attrs@.len(),
            m == attrs_model(attrs@),
            sp_attr_value(m, key@) == sp_attr_value(m.skip(i as int), key@),
        decreases attrs@.len() - i,
    {
        proof {
            assert(m.skip(i as int)[0] == m[i as int]);
            assert(m[i as int] == (attrs@[i as int].0@, attrs@[i as int].1@));
            assert(m.skip(i as int).skip(1) =~= m.skip(i + 1 as int));
        }
        if bytes_eq(attrs[i].0.as_slice(), key.as_slice()) {
            return Some(copy_bytes(attrs[i].1.as_slice()));
        }
        i = i + 1;
    }
    proof {
        assert(m.skip(i as int) =~= Seq::<(Seq<u8>, Seq<u8>)>::empty());
    }
    None
}

/// The named attribute lower-cased, per `sp_hash_attr`.
fn attr_hash(attrs: &Vec<(Vec<u8>, Vec<u8>)>, key: &Vec<u8>) -> (r: Option<Vec<u8>>)
    ensures
        match r {
            Some(v) => v@ == lower(v@) && sp_hash_attr(attrs_model(attrs@), key@) == Some(v@),
            None => sp_hash_attr(attrs_model(attrs@), key@) is None,
        },
{
    match attr_value(attrs, key) {
        Some(v) => {
            let lv = to_lower(v.as_slice());
            proof {
                lemma_lower_idempotent(v@);
            }
            Some(lv)
        },
        None => None,
    }
}


// ---------------------------------------------------------------------------
// Specification mirror of the parse state machine
// ---------------------------------------------------------------------------
/// The walk's state: open elements, the owning unit, and a pending
/// open-shape content entry.
pub ghost struct SpState {
    pub stack: Seq<Seq<u8>>,
    pub current_game: Seq<u8>,
    pub in_game: bool,
    pub in_rom: bool,
    pub rom_name: Seq<u8>,
    pub rom_sha1: Option<Seq<u8>>,
    pub rom_md5: Option<Seq<u8>>,
    pub rom_crc: Option<Seq<u8>>,
}

/// What the walk accumulates: the digest index, the declared games, and the
/// parent/clone bindings.
pub ghost struct SpCatalog {
    pub db: Map<Seq<u8>, Seq<EntryModel>>,
    pub games: Set<Seq<u8>>,
    pub parents: Map<Seq<u8>, Seq<u8>>,
}

pub open spec fn sp_init_state() -> SpState {
    SpState {
        stack: Seq::<Seq<u8>>::empty(),
        current_game: Seq::<u8>::empty(),
        in_game: false,
        in_rom: false,
        rom_name: Seq::<u8>::empty(),
        rom_sha1: None,
        rom_md5: None,
        rom_crc: None,
    }
}

pub open spec fn sp_empty_catalog() -> SpCatalog {
    SpCatalog {
        db: Map::<Seq<u8>, Seq<EntryModel>>::empty(),
        games: Set::<Seq<u8>>::empty(),
        parents: Map::<Seq<u8>, Seq<u8>>::empty(),
    }
}

/// Row of digest `h`; empty when the digest is unknown.
pub open spec fn db_get(m: Map<Seq<u8>, Seq<EntryModel>>, h: Seq<u8>) -> Seq<EntryModel> {
    if m.dom().contains(h) {
        m[h]
    } else {
        Seq::<EntryModel>::empty()
    }
}

pub open spec fn db_put(m: Map<Seq<u8>, Seq<EntryModel>>, h: Seq<u8>, e: EntryModel) -> Map<
    Seq<u8>,
    Seq<EntryModel>,
> {
    m.insert(h, db_get(m, h).push(e))
}

/// Register one entry under every digest it declares: sha1, then md5, then
/// crc.
pub open spec fn sp_register(m: Map<Seq<u8>, Seq<EntryModel>>, e: EntryModel) -> Map<
    Seq<u8>,
    Seq<EntryModel>,
> {
    let m1 = match e.hashes.sha1 {
        Some(h) => db_put(m, h, e),
        None => m,
    };
    let m2 = match e.hashes.md5 {
        Some(h) => db_put(m1, h, e),
        None => m1,
    };
    match e.hashes.crc {
        Some(h) => db_put(m2, h, e),
        None => m2,
    }
}

pub open spec fn parents_get(m: Map<Seq<u8>, Seq<u8>>, c: Seq<u8>) -> Option<Seq<u8>> {
    if m.dom().contains(c) {
        Some(m[c])
    } else {
        None
    }
}

/// The association containers realize the mathematical catalog pointwise.
pub open spec fn db_matches(db: RomDb, m: Map<Seq<u8>, Seq<EntryModel>>) -> bool {
    forall|h: Seq<u8>| #[trigger] db.lookup(h) == db_get(m, h)
}

pub open spec fn games_matches(gs: GameSet, s: Set<Seq<u8>>) -> bool {
    forall|g: Seq<u8>| #[trigger] gs.has(g) == s.contains(g)
}

pub open spec fn pm_matches(pm: NameMap, m: Map<Seq<u8>, Seq<u8>>) -> bool {
    forall|c: Seq<u8>| #[trigger] pm.lookup(c) == parents_get(m, c)
}

/// What a start event does: a non-self-closing unit with a nonempty name
/// opens a game span (and binds its parent under the hierarchical dialect);
/// inside a span, a self-closing content entry is registered at once, an
/// open-shape one is held pending, and a self-closing disk entry is
/// registered when it declares a sha1; every non-self-closing tag opens.
pub open spec fn sp_handle_start(
    st: SpState,
    cat: SpCatalog,
    name: Seq<u8>,
    attrs: Seq<(Seq<u8>, Seq<u8>)>,
    self_closing: bool,
    mame: bool,
) -> (SpState, SpCatalog) {
    let is_unit = name == sp_game() || name == sp_machine();
    let r: (SpState, SpCatalog) = if is_unit && !self_closing {
        let g = sp_attr_or_empty(attrs, sp_name());
        if g.len() > 0 {
            let parents2 = if mame {
                match (match sp_attr_value(attrs, sp_cloneof()) {
                    Some(v) => Some(v),
                    None => sp_attr_value(attrs, sp_romof()),
                }) {
                    Some(par) => cat.parents.insert(g, par),
                    None => cat.parents,
                }
            } else {
                cat.parents
            };
            (
                SpState {
                    stack: st.stack,
                    current_game: g,
                    in_game: true,
                    in_rom: st.in_rom,
                    rom_name: st.rom_name,
                    rom_sha1: st.rom_sha1,
                    rom_md5: st.rom_md5,
                    rom_crc: st.rom_crc,
                },
                SpCatalog { db: cat.db, games: cat.games.insert(g), parents: parents2 },
            )
        } else {
            (
                SpState {
                    stack: st.stack,
                    current_game: g,
                    in_game: false,
                    in_rom: st.in_rom,
                    rom_name: st.rom_name,
                    rom_sha1: st.rom_sha1,
                    rom_md5: st.rom_md5,
                    rom_crc: st.rom_crc,
                },
                cat,
            )
        }
    } else if st.in_game && name == sp_rom() {
        let e_name = sp_attr_or_empty(attrs, sp_name());
        let sh = sp_hash_attr(attrs, sp_sha1());
        let m5 = sp_hash_attr(attrs, sp_md5());
        let cr = sp_hash_attr(attrs, sp_crc());
        if self_closing {
            let e = EntryModel {
                name: e_name,
                game: st.current_game,
                hashes: HashesModel { sha1: sh, md5: m5, crc: cr },
                is_disk: false,
            };
            (st, SpCatalog { db: sp_register(cat.db, e), games: cat.games, parents: cat.parents })
        } else {
            (
                SpState {
                    stack: st.stack,
                    current_game: st.current_game,
                    in_game: st.in_game,
                    in_rom: true,
                    rom_name: e_name,
                    rom_sha1: sh,
                    rom_md5: m5,
                    rom_crc: cr,
                },
                cat,
            )
        }
    } else if st.in_game && self_closing && name == sp_disk() {
        let e_name = sp_attr_or_empty(attrs, sp_name());
        match sp_hash_attr(attrs, sp_sha1()) {
            Some(h) => {
                let e = EntryModel {
                    name: e_name,
                    game: st.current_game,
                    hashes: HashesModel { sha1: Some(h), md5: None, crc: None },
                    is_disk: true,
                };
                (
                    st,
                    SpCatalog {
                        db: sp_register(cat.db, e),
                        games: cat.games,
                        parents: cat.parents,
                    },
                )
            },
            None => (st, cat),
        }
    } else {
        (st, cat)
    };
    if !self_closing {
        (
            SpState {
                stack: r.0.stack.push(name),
                current_game: r.0.current_game,
                in_game: r.0.in_game,
                in_rom: r.0.in_rom,
                rom_name: r.0.rom_name,
                rom_sha1: r.0.rom_sha1,
                rom_md5: r.0.rom_md5,
                rom_crc: r.0.rom_crc,
            },
            r.1,
        )
    } else {
        r
    }
}

/// What an end event does, after the caller has checked that it closes the
/// innermost open element: a closing content entry registers its pending
/// fields when still inside a unit's span; a closing unit ends the span.
pub open spec fn sp_handle_end(st: SpState, cat: SpCatalog, name: Seq<u8>) -> (
    SpState,
    SpCatalog,
) {
    let popped = st.stack.drop_last();
    if st.in_rom && name == sp_rom() {
        let e = EntryModel {
            name: st.rom_name,
            game: st.current_game,
            hashes: HashesModel { sha1: st.rom_sha1, md5: st.rom_md5, crc: st.rom_crc },
            is_disk: false,
        };
        let st2 = SpState {
            stack: popped,
            current_game: st.current_game,
            in_game: st.in_game,
            in_rom: false,
            rom_name: st.rom_name,
            rom_sha1: st.rom_sha1,
            rom_md5: st.rom_md5,
            rom_crc: st.rom_crc,
        };
        if st.in_game {
            (
                st2,
                SpCatalog { db: sp_register(cat.db, e), games: cat.games, parents: cat.parents },
            )
        } else {
            (st2, cat)
        }
    } else if name == sp_game() || name == sp_machine() {
        (
            SpState {
                stack: popped,
                current_game: st.current_game,
                in_game: false,
                in_rom: st.in_rom,
                rom_name: st.rom_name,
                rom_sha1: st.rom_sha1,
                rom_md5: st.rom_md5,
                rom_crc: st.rom_crc,
            },
            cat,
        )
    } else {
        (
            SpState {
                stack: popped,
                current_game: st.current_game,
                in_game: st.in_game,
                in_rom: st.in_rom,
                rom_name: st.rom_name,
                rom_sha1: st.rom_sha1,
                rom_md5: st.rom_md5,
                rom_crc: st.rom_crc,
            },
            cat,
        )
    }
}

/// The whole walk from `pos`: event by event until a well-balanced end of
/// input (`Some`), or `None` on the first structural fault.
pub open spec fn sp_parse(
    buf: Seq<u8>,
    pos: int,
    st: SpState,
    cat: SpCatalog,
    mame: bool,
) -> Option<SpCatalog>
    decreases buf.len() - pos,
{
    if pos < 0 || pos > buf.len() {
        None
    } else {
        match sp_next_event(buf, pos) {
            None => None,
            Some((ev, np)) => match ev {
                SpEvent::Eof => {
                    if st.stack.len() == 0 {
                        Some(cat)
                    } else {
                        None
                    }
                },
                SpEvent::Start { name, attrs, self_closing } => {
                    if np <= pos || np > buf.len() {
                        None
                    } else {
                        let r = sp_handle_start(st, cat, name, attrs, self_closing, mame);
                        sp_parse(buf, np, r.0, r.1, mame)
                    }
                },
                SpEvent::End { name } => {
                    if st.stack.len() == 0 || st.stack.last() != name {
                        None
                    } else if np <= pos || np > buf.len() {
                        None
                    } else {
                        let r = sp_handle_end(st, cat, name);
                        sp_parse(buf, np, r.0, r.1, mame)
                    }
                },
            },
        }
    }
}

/// The catalog a byte stream declares, or `None` when it is malformed.
pub open spec fn catalog_spec(content: Seq<u8>, mame: bool) -> Option<SpCatalog> {
    sp_parse(content, 0, sp_init_state(), sp_empty_catalog(), mame)
}

pub open spec fn catalog_db(content: Seq<u8>, mame: bool) -> Map<Seq<u8>, Seq<EntryModel>> {
    match catalog_spec(content, mame) {
        Some(c) => c.db,
        None => Map::<Seq<u8>, Seq<EntryModel>>::empty(),
    }
}

pub open spec fn catalog_games(content: Seq<u8>, mame: bool) -> Set<Seq<u8>> {
    match catalog_spec(content, mame) {
        Some(c) => c.games,
        None => Set::<Seq<u8>>::empty(),
    }
}

pub open spec fn catalog_parents(content: Seq<u8>, mame: bool) -> Map<Seq<u8>, Seq<u8>> {
    match catalog_spec(content, mame) {
        Some(c) => c.parents,
        None => Map::<Seq<u8>, Seq<u8>>::empty(),
    }
}

/// Register one content entry under every digest it declares, realizing one
/// `sp_register` of the catalog model.
fn register_entry(
    db: &mut RomDb,
    games: &GameSet,
    e: &RomEntry,
    Ghost(m): Ghost<Map<Seq<u8>, Seq<EntryModel>>>,
)
    requires
        old(db).wf(),
        indexed_entries_ok(*old(db), *games),
        keys_lowercase(*old(db)),
        db_matches(*old(db), m),
        games.has(e@.game),
        e@.is_disk ==> e@.hashes.sha1 is Some && e@.hashes.md5 is None && e@.hashes.crc is None,
        match e@.hashes.sha1 {
            Some(v) => v == lower(v),
            None => true,
        },
        match e@.hashes.md5 {
            Some(v) => v == lower(v),
            None => true,
        },
        match e@.hashes.crc {
            Some(v) => v == lower(v),
            None => true,
        },
    ensures
        final(db).wf(),
        indexed_entries_ok(*final(db), *games),
        keys_lowercase(*final(db)),
        db_matches(*final(db), sp_register(m, e@)),
{
    let ghost m1 = match e@.hashes.sha1 {
        Some(h) => db_put(m, h, e@),
        None => m,
    };
    match &e.hashes.sha1 {
        Some(key) => {
            index_entry(db, games, key, e, Ghost(m));
        },
        None => {},
    }
    proof {
        assert(db_matches(*db, m1));
    }
    let ghost m2 = match e@.hashes.md5 {
        Some(h) => db_put(m1, h, e@),
        None => m1,
    };
    match &e.hashes.md5 {
        Some(key) => {
            index_entry(db, games, key, e, Ghost(m1));
        },
        None => {},
    }
    proof {
        assert(db_matches(*db, m2));
    }
    match &e.hashes.crc {
        Some(key) => {
            index_entry(db, games, key, e, Ghost(m2));
        },
        None => {},
    }
    proof {
        assert(db_matches(*db, sp_register(m, e@)));
    }
}

/// The streaming parser over raw catalog bytes.
pub struct XmlParser;

impl XmlParser {
    pub fn new() -> (r: XmlParser) {
        XmlParser
    }

    /// Walk the markup and build the normalized catalog. The result is
    /// pinned to the byte stream by `catalog_spec`: on success the digest
    /// index, game set and parent/clone map equal, pointwise, what the
    /// specification-level walk reads from the same bytes, and a ParseError
    /// comes exactly when that walk finds the markup malformed (broken
    /// tags, unbalanced or mismatched elements).
    pub fn parse(&self, content: &[u8], mame: bool, dat_type: DatType) -> (r: Result<
        ParsedDat,
        ParseError,
    >)
        ensures
            match r {
                Ok(pd) => {
                    &&& pd.rom_db.wf()
                    &&& pd.all_games.wf()
                    &&& pd.parent_clone_map.wf()
                    &&& indexed_entries_ok(pd.rom_db, pd.all_games)
                    &&& keys_lowercase(pd.rom_db)
                    &&& pd.dat_type == dat_type
                    &&& pd.mame == mame
                    &&& (!mame ==> pd.parent_clone_map.keys@.len() == 0)
                    &&& (forall|g: Seq<u8>| #[trigger] pd.all_games.has(g) ==> g.len() > 0)
                    &&& catalog_spec(content@, mame) is Some
                    &&& forall|h: Seq<u8>|
                        #[trigger] pd.rom_db.lookup(h) == db_get(catalog_db(content@, mame), h)
                    &&& forall|g: Seq<u8>|
                        #[trigger] pd.all_games.has(g) == catalog_games(
                            content@,
                            mame,
                        ).contains(g)
                    &&& forall|c: Seq<u8>|
                        #[trigger] pd.parent_clone_map.lookup(c) == parents_get(
                            catalog_parents(content@, mame),
                            c,
                        )
                },
                Err(_) => catalog_spec(content@, mame) is None,
            },
    {
        let n: usize = content.len();
        let mut db = RomDb::new();
        let mut games = GameSet::new();
        let mut pm = NameMap::new();
        let mut stack: Vec<Vec<u8>> = Vec::new();
        let mut current_game: Vec<u8> = Vec::new();
        let mut in_game: bool = false;
        let mut in_rom: bool = false;
        let mut rom_name: Vec<u8> = Vec::new();
        let mut rom_sha1: Option<Vec<u8>> = None;
        let mut rom_md5: Option<Vec<u8>> = None;
        let mut rom_crc: Option<Vec<u8>> = None;
        let mut pos: usize = 0;
        let ghost mut gst = sp_init_state();
        let ghost mut gcat = sp_empty_catalog();
        proof {
            assert(indexed_entries_ok(db, games)) by {
                assert forall|h: Seq<u8>, j: int|
                    0 <= j < db.lookup(h).len() implies entry_ok(
                    h,
                    #[trigger] db.lookup(h)[j],
                    games,
                ) by {
                    assert(db.lookup(h).len() == 0);
                }
            }
            assert(keys_lowercase(db)) by {
                assert(forall|h: Seq<u8>| !db.contains_hash(h));
            }
            assert(db_matches(db, gcat.db)) by {
                assert(forall|h: Seq<u8>| #[trigger] db.lookup(h) =~= db_get(gcat.db, h));
            }
            assert(games_matches(games, gcat.games));
            assert(pm_matches(pm, gcat.parents));
            assert(gst.stack =~= stack@.map_values(|v: Vec<u8>| v@));
        }
        loop
            invariant
                pos <= n,
                n == content@.len(),
                db.wf(),
                games.wf(),
                pm.wf(),
                indexed_entries_ok(db, games),
                keys_lowercase(db),
                in_game ==> games.has(current_game@),
                forall|g: Seq<u8>| #[trigger] games.has(g) ==> g.len() > 0,
                !mame ==> pm.keys@.len() == 0,
                rom_sha1 matches Some(v) ==> v@ == lower(v@),
                rom_md5 matches Some(v) ==> v@ == lower(v@),
                rom_crc matches Some(v) ==> v@ == lower(v@),
                db_matches(db, gcat.db),
                games_matches(games, gcat.games),
                pm_matches(pm, gcat.parents),
                gst.stack == stack@.map_values(|v: Vec<u8>| v@),
                gst.current_game == current_game@,
                gst.in_game == in_game,
                gst.in_rom == in_rom,
                gst.rom_name == rom_name@,
                gst.rom_sha1 == opt_model(rom_sha1),
                gst.rom_md5 == opt_model(rom_md5),
                gst.rom_crc == opt_model(rom_crc),
                sp_parse(content@, pos as int, gst, gcat, mame) == catalog_spec(content@, mame),
            ensures
                db.wf(),
                games.wf(),
                pm.wf(),
                indexed_entries_ok(db, games),
                keys_lowercase(db),
                forall|g: Seq<u8>| #[trigger] games.has(g) ==> g.len() > 0,
                !mame ==> pm.keys@.len() == 0,
                db_matches(db, gcat.db),
                games_matches(games, gcat.games),
                pm_matches(pm, gcat.parents),
                catalog_spec(content@, mame) == Some(gcat),
            decreases n - pos,
        {
            let ghost gst0 = gst;
            let ghost gcat0 = gcat;
            let (ev, np) = match next_event(content, pos) {
                Ok(x) => x,
                Err(e) => {
                    return Err(e);
                },
            };
            match ev {
                XmlEvent::Eof => {
                    if stack.len() > 0 {
                        proof {
                            assert(gst.stack.len() > 0);
                            assert(sp_parse(content@, pos as int, gst, gcat, mame) is None);
                        }
                        return Err(ParseError { at: pos });
                    }
                    proof {
                        assert(gst.stack.len() == 0);
                        assert(sp_parse(content@, pos as int, gst, gcat, mame) == Some(gcat));
                    }
                    break ;
                },
                XmlEvent::Start { name, attrs, self_closing } => {
                    let ghost hs = sp_handle_start(
                        gst0,
                        gcat0,
                        name@,
                        attrs_model(attrs@),
                        self_closing,
                        mame,
                    );
                    let is_unit = bytes_eq(name.as_slice(), tag_game().as_slice()) || bytes_eq(
                        name.as_slice(),
                        tag_machine().as_slice(),
                    );
                    if is_unit && !self_closing {
                        current_game = match attr_value(&attrs, &tag_name()) {
                            Some(v) => v,
                            None => Vec::new(),
                        };
                        proof {
                            assert(current_game@ == sp_attr_or_empty(
                                attrs_model(attrs@),
                                sp_name(),
                            ));
                        }
                        if current_game.len() > 0 {
                            let ghost g0 = games;
                            games.insert(current_game.as_slice());
                            proof {
                                lemma_inv_mono(db, g0, games);
                                assert forall|g2: Seq<u8>| #[trigger] games.has(g2)
                                    == gcat0.games.insert(current_game@).contains(g2) by {}
                            }
                            in_game = true;
                            if mame {
                                let parent = match attr_value(&attrs, &tag_cloneof()) {
                                    Some(v) => Some(v),
                                    None => attr_value(&attrs, &tag_romof()),
                                };
                                match parent {
                                    Some(p) => {
                                        pm.set(current_game.as_slice(), p.as_slice());
                                        proof {
                                            assert forall|c: Seq<u8>| #[trigger] pm.lookup(c)
                                                == parents_get(
                                                gcat0.parents.insert(current_game@, p@),
                                                c,
                                            ) by {}
                                        }
                                    },
                                    None => {},
                                }
                            }
                        } else {
                            in_game = false;
                        }
                    } else if in_game && bytes_eq(name.as_slice(), tag_rom().as_slice()) {
                        let e_name = match attr_value(&attrs, &tag_name()) {
                            Some(v) => v,
                            None => Vec::new(),
                        };
                        let e_sha1 = attr_hash(&attrs, &tag_sha1());
                        let e_md5 = attr_hash(&attrs, &tag_md5());
                        let e_crc = attr_hash(&attrs, &tag_crc());
                        proof {
                            assert(e_name@ == sp_attr_or_empty(attrs_model(attrs@), sp_name()));
                            assert(opt_model(e_sha1) == sp_hash_attr(
                                attrs_model(attrs@),
                                sp_sha1(),
                            ));
                            assert(opt_model(e_md5) == sp_hash_attr(
                                attrs_model(attrs@),
                                sp_md5(),
                            ));
                            assert(opt_model(e_crc) == sp_hash_attr(
                                attrs_model(attrs@),
                                sp_crc(),
                            ));
                        }
                        if self_closing {
                            let e = RomEntry {
                                name: e_name,
                                game: copy_bytes(current_game.as_slice()),
                                hashes: RomHashes { sha1: e_sha1, md5: e_md5, crc: e_crc },
                                is_disk: false,
                            };
                            register_entry(&mut db, &games, &e, Ghost(gcat0.db));
                        } else {
                            in_rom = true;
                            rom_name = e_name;
                            rom_sha1 = e_sha1;
                            rom_md5 = e_md5;
                            rom_crc = e_crc;
                        }
                    } else if in_game && self_closing && bytes_eq(
                        name.as_slice(),
                        tag_disk().as_slice(),
                    ) {
                        let e_name = match attr_value(&attrs, &tag_name()) {
                            Some(v) => v,
                            None => Vec::new(),
                        };
                        proof {
                            assert(e_name@ == sp_attr_or_empty(attrs_model(attrs@), sp_name()));
                        }
                        match attr_hash(&attrs, &tag_sha1()) {
                            Some(sha1_hash) => {
                                let e = RomEntry {
                                    name: e_name,
                                    game: copy_bytes(current_game.as_slice()),
                                    hashes: RomHashes {
                                        sha1: Some(sha1_hash),
                                        md5: None,
                                        crc: None,
                                    },
                                    is_disk: true,
                                };
                                register_entry(&mut db, &games, &e, Ghost(gcat0.db));
                            },
                            None => {
                                proof {
                                    assert(sp_hash_attr(attrs_model(attrs@), sp_sha1())
                                        is None);
                                }
                            },
                        }
                    }
                    if !self_closing {
                        stack.push(name);
                    }
                    proof {
                        gst = hs.0;
                        gcat = hs.1;
                        if !self_closing {
                            assert(stack@.map_values(|v: Vec<u8>| v@) =~= gst0.stack.push(
                                ev@->Start_name,
                            ));
                        }
                        assert(gst.stack == stack@.map_values(|v: Vec<u8>| v@));
                        assert(db_matches(db, gcat.db));
                        assert(games_matches(games, gcat.games));
                        assert(pm_matches(pm, gcat.parents));
                        assert(sp_parse(content@, pos as int, gst0, gcat0, mame) == sp_parse(
                            content@,
                            np as int,
                            gst,
                            gcat,
                            mame,
                        ));
                    }
                },
                XmlEvent::End { name } => {
                    let ghost he = sp_handle_end(gst0, gcat0, name@);
                    match stack.pop() {
                        Some(open_name) => {
                            if !bytes_eq(open_name.as_slice(), name.as_slice()) {
                                proof {
                                    assert(gst0.stack.last() == open_name@);
                                    assert(sp_parse(content@, pos as int, gst0, gcat0, mame)
                                        is None);
                                }
                                return Err(ParseError { at: pos });
                            }
                        },
                        None => {
                            proof {
                                assert(gst0.stack.len() == 0);
                                assert(sp_parse(content@, pos as int, gst0, gcat0, mame)
                                    is None);
                            }
                            return Err(ParseError { at: pos });
                        },
                    }
                    proof {
                        assert(gst0.stack.len() > 0 && gst0.stack.last() == name@);
                        assert(stack@.map_values(|v: Vec<u8>| v@) =~= gst0.stack.drop_last());
                    }
                    if in_rom && bytes_eq(name.as_slice(), tag_rom().as_slice()) {
                        in_rom = false;
                        let e = RomEntry {
                            name: copy_bytes(rom_name.as_slice()),
                            game: copy_bytes(current_game.as_slice()),
                            hashes: RomHashes {
                                sha1: match &rom_sha1 {
                                    Some(v) => Some(copy_bytes(v.as_slice())),
                                    None => None,
                                },
                                md5: match &rom_md5 {
                                    Some(v) => Some(copy_bytes(v.as_slice())),
                                    None => None,
                                },
                                crc: match &rom_crc {
                                    Some(v) => Some(copy_bytes(v.as_slice())),
                                    None => None,
                                },
                            },
                            is_disk: false,
                        };
                        proof {
                            assert(e@.hashes.sha1 == gst0.rom_sha1);
                            assert(e@.hashes.md5 == gst0.rom_md5);
                            assert(e@.hashes.crc == gst0.rom_crc);
                        }
                        if in_game {
                            register_entry(&mut db, &games, &e, Ghost(gcat0.db));
                        }
                    } else if bytes_eq(name.as_slice(), tag_game().as_slice()) || bytes_eq(
                        name.as_slice(),
                        tag_machine().as_slice(),
                    ) {
                        in_game = false;
                    }
                    proof {
                        gst = he.0;
                        gcat = he.1;
                        assert(gst.stack == stack@.map_values(|v: Vec<u8>| v@));
                        assert(db_matches(db, gcat.db));
                        assert(games_matches(games, gcat.games));
                        assert(pm_matches(pm, gcat.parents));
                        assert(sp_parse(content@, pos as int, gst0, gcat0, mame) == sp_parse(
                            content@,
                            np as int,
                            gst,
                            gcat,
                            mame,
                        ));
                    }
                },
            }
            pos = np;
        }
        proof {
            assert forall|h: Seq<u8>| #[trigger] db.lookup(h) == db_get(
                catalog_db(content@, mame),
                h,
            ) by {
                assert(db.lookup(h) == db_get(gcat.db, h));
            }
            assert forall|g: Seq<u8>| #[trigger] games.has(g) == catalog_games(
                content@,
                mame,
            ).contains(g) by {
                assert(games.has(g) == gcat.games.contains(g));
            }
            assert forall|c: Seq<u8>| #[trigger] pm.lookup(c) == parents_get(
                catalog_parents(content@, mame),
                c,
            ) by {
                assert(pm.lookup(c) == parents_get(gcat.parents, c));
            }
        }
        Ok(ParsedDat { rom_db: db, all_games: games, dat_type, parent_clone_map: pm, mame })
    }
}

} // verus!
