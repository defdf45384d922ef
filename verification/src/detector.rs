//! Catalog dialect and set-type detection: heuristics over a bounded
//! leading sample of the raw catalog bytes and over the catalog's file name.

use vstd::prelude::*;
use crate::bytes::{
    contains_sub, count_matches, count_sub, find_sub, copy_range, is_substring, lower, to_lower,
};
use crate::types::DatType;

verus! {

/// The byte token `<mame build=`.
pub open spec fn tok_mame_build() -> Seq<u8> {
    seq![60u8, 109u8, 97u8, 109u8, 101u8, 32u8, 98u8, 117u8, 105u8, 108u8, 100u8, 61u8]
}

fn tok_mame_build_v() -> (r: Vec<u8>)
    ensures
        r@ == tok_mame_build(),
{
    let r: Vec<u8> = vec![60u8, 109u8, 97u8, 109u8, 101u8, 32u8, 98u8, 117u8, 105u8, 108u8, 100u8, 61u8];
    proof {
        assert(r@ =~= tok_mame_build());
    }
    r
}

/// The byte token `<!DOCTYPE mame`.
pub open spec fn tok_doctype_mame() -> Seq<u8> {
    seq![60u8, 33u8, 68u8, 79u8, 67u8, 84u8, 89u8, 80u8, 69u8, 32u8, 109u8, 97u8, 109u8, 101u8]
}

fn tok_doctype_mame_v() -> (r: Vec<u8>)
    ensures
        r@ == tok_doctype_mame(),
{
    let r: Vec<u8> = vec![60u8, 33u8, 68u8, 79u8, 67u8, 84u8, 89u8, 80u8, 69u8, 32u8, 109u8, 97u8, 109u8, 101u8];
    proof {
        assert(r@ =~= tok_doctype_mame());
    }
    r
}

/// The byte token `<game `.
pub open spec fn tok_game_tag() -> Seq<u8> {
    seq![60u8, 103u8, 97u8, 109u8, 101u8, 32u8]
}

fn tok_game_tag_v() -> (r: Vec<u8>)
    ensures
        r@ == tok_game_tag(),
{
    let r: Vec<u8> = vec![60u8, 103u8, 97u8, 109u8, 101u8, 32u8];
    proof {
        assert(r@ =~= tok_game_tag());
    }
    r
}

/// The byte token `<machine `.
pub open spec fn tok_machine_tag() -> Seq<u8> {
    seq![60u8, 109u8, 97u8, 99u8, 104u8, 105u8, 110u8, 101u8, 32u8]
}

fn tok_machine_tag_v() -> (r: Vec<u8>)
    ensures
        r@ == tok_machine_tag(),
{
    let r: Vec<u8> = vec![60u8, 109u8, 97u8, 99u8, 104u8, 105u8, 110u8, 101u8, 32u8];
    proof {
        assert(r@ =~= tok_machine_tag());
    }
    r
}

/// The byte token `cloneof=`.
pub open spec fn tok_cloneof() -> Seq<u8> {
    seq![99u8, 108u8, 111u8, 110u8, 101u8, 111u8, 102u8, 61u8]
}

fn tok_cloneof_v() -> (r: Vec<u8>)
    ensures
        r@ == tok_cloneof(),
{
    let r: Vec<u8> = vec![99u8, 108u8, 111u8, 110u8, 101u8, 111u8, 102u8, 61u8];
    proof {
        assert(r@ =~= tok_cloneof());
    }
    r
}

/// The byte token `romof=`.
pub open spec fn tok_romof() -> Seq<u8> {
    seq![114u8, 111u8, 109u8, 111u8, 102u8, 61u8]
}

fn tok_romof_v() -> (r: Vec<u8>)
    ensures
        r@ == tok_romof(),
{
    let r: Vec<u8> = vec![114u8, 111u8, 109u8, 111u8, 102u8, 61u8];
    proof {
        assert(r@ =~= tok_romof());
    }
    r
}

/// The byte token `</header>`.
pub open spec fn tok_header_end() -> Seq<u8> {
    seq![60u8, 47u8, 104u8, 101u8, 97u8, 100u8, 101u8, 114u8, 62u8]
}

fn tok_header_end_v() -> (r: Vec<u8>)
    ensures
        r@ == tok_header_end(),
{
    let r: Vec<u8> = vec![60u8, 47u8, 104u8, 101u8, 97u8, 100u8, 101u8, 114u8, 62u8];
    proof {
        assert(r@ =~= tok_header_end());
    }
    r
}

/// The byte token `mame`.
pub open spec fn tok_mame() -> Seq<u8> {
    seq![109u8, 97u8, 109u8, 101u8]
}

fn tok_mame_v() -> (r: Vec<u8>)
    ensures
        r@ == tok_mame(),
{
    let r: Vec<u8> = vec![109u8, 97u8, 109u8, 101u8];
    proof {
        assert(r@ =~= tok_mame());
    }
    r
}

/// The byte token `multiple arcade machine emulator`.
pub open spec fn tok_mame_long() -> Seq<u8> {
    seq![109u8, 117u8, 108u8, 116u8, 105u8, 112u8, 108u8, 101u8, 32u8, 97u8, 114u8, 99u8, 97u8, 100u8, 101u8, 32u8, 109u8, 97u8, 99u8, 104u8, 105u8, 110u8, 101u8, 32u8, 101u8, 109u8, 117u8, 108u8, 97u8, 116u8, 111u8, 114u8]
}

fn tok_mame_long_v() -> (r: Vec<u8>)
    ensures
        r@ == tok_mame_long(),
{
    let r: Vec<u8> = vec![109u8, 117u8, 108u8, 116u8, 105u8, 112u8, 108u8, 101u8, 32u8, 97u8, 114u8, 99u8, 97u8, 100u8, 101u8, 32u8, 109u8, 97u8, 99u8, 104u8, 105u8, 110u8, 101u8, 32u8, 101u8, 109u8, 117u8, 108u8, 97u8, 116u8, 111u8, 114u8];
    proof {
        assert(r@ =~= tok_mame_long());
    }
    r
}

/// The byte token `arcade`.
pub open spec fn tok_arcade() -> Seq<u8> {
    seq![97u8, 114u8, 99u8, 97u8, 100u8, 101u8]
}

fn tok_arcade_v() -> (r: Vec<u8>)
    ensures
        r@ == tok_arcade(),
{
    let r: Vec<u8> = vec![97u8, 114u8, 99u8, 97u8, 100u8, 101u8];
    proof {
        assert(r@ =~= tok_arcade());
    }
    r
}

/// The byte token `rom`.
pub open spec fn tok_rom_word() -> Seq<u8> {
    seq![114u8, 111u8, 109u8]
}

fn tok_rom_word_v() -> (r: Vec<u8>)
    ensures
        r@ == tok_rom_word(),
{
    let r: Vec<u8> = vec![114u8, 111u8, 109u8];
    proof {
        assert(r@ =~= tok_rom_word());
    }
    r
}

/// The byte token `merged`.
pub open spec fn tok_merged() -> Seq<u8> {
    seq![109u8, 101u8, 114u8, 103u8, 101u8, 100u8]
}

fn tok_merged_v() -> (r: Vec<u8>)
    ensures
        r@ == tok_merged(),
{
    let r: Vec<u8> = vec![109u8, 101u8, 114u8, 103u8, 101u8, 100u8];
    proof {
        assert(r@ =~= tok_merged());
    }
    r
}

/// The byte token `split`.
pub open spec fn tok_split() -> Seq<u8> {
    seq![115u8, 112u8, 108u8, 105u8, 116u8]
}

fn tok_split_v() -> (r: Vec<u8>)
    ensures
        r@ == tok_split(),
{
    let r: Vec<u8> = vec![115u8, 112u8, 108u8, 105u8, 116u8];
    proof {
        assert(r@ =~= tok_split());
    }
    r
}

/// The byte token `non-merged`.
pub open spec fn tok_non_merged_dash() -> Seq<u8> {
    seq![110u8, 111u8, 110u8, 45u8, 109u8, 101u8, 114u8, 103u8, 101u8, 100u8]
}

fn tok_non_merged_dash_v() -> (r: Vec<u8>)
    ensures
        r@ == tok_non_merged_dash(),
{
    let r: Vec<u8> = vec![110u8, 111u8, 110u8, 45u8, 109u8, 101u8, 114u8, 103u8, 101u8, 100u8];
    proof {
        assert(r@ =~= tok_non_merged_dash());
    }
    r
}

/// The byte token `nonmerged`.
pub open spec fn tok_nonmerged() -> Seq<u8> {
    seq![110u8, 111u8, 110u8, 109u8, 101u8, 114u8, 103u8, 101u8, 100u8]
}

fn tok_nonmerged_v() -> (r: Vec<u8>)
    ensures
        r@ == tok_nonmerged(),
{
    let r: Vec<u8> = vec![110u8, 111u8, 110u8, 109u8, 101u8, 114u8, 103u8, 101u8, 100u8];
    proof {
        assert(r@ =~= tok_nonmerged());
    }
    r
}

/// The byte token `non merged`.
pub open spec fn tok_non_merged_space() -> Seq<u8> {
    seq![110u8, 111u8, 110u8, 32u8, 109u8, 101u8, 114u8, 103u8, 101u8, 100u8]
}

fn tok_non_merged_space_v() -> (r: Vec<u8>)
    ensures
        r@ == tok_non_merged_space(),
{
    let r: Vec<u8> = vec![110u8, 111u8, 110u8, 32u8, 109u8, 101u8, 114u8, 103u8, 101u8, 100u8];
    proof {
        assert(r@ =~= tok_non_merged_space());
    }
    r
}

/// The byte token `non`.
pub open spec fn tok_non() -> Seq<u8> {
    seq![110u8, 111u8, 110u8]
}

fn tok_non_v() -> (r: Vec<u8>)
    ensures
        r@ == tok_non(),
{
    let r: Vec<u8> = vec![110u8, 111u8, 110u8];
    proof {
        assert(r@ =~= tok_non());
    }
    r
}

/// The byte token `name="neogeo"`.
pub open spec fn tok_name_neogeo() -> Seq<u8> {
    seq![110u8, 97u8, 109u8, 101u8, 61u8, 34u8, 110u8, 101u8, 111u8, 103u8, 101u8, 111u8, 34u8]
}

fn tok_name_neogeo_v() -> (r: Vec<u8>)
    ensures
        r@ == tok_name_neogeo(),
{
    let r: Vec<u8> = vec![110u8, 97u8, 109u8, 101u8, 61u8, 34u8, 110u8, 101u8, 111u8, 103u8, 101u8, 111u8, 34u8];
    proof {
        assert(r@ =~= tok_name_neogeo());
    }
    r
}

/// The byte token `name="decocass"`.
pub open spec fn tok_name_decocass() -> Seq<u8> {
    seq![110u8, 97u8, 109u8, 101u8, 61u8, 34u8, 100u8, 101u8, 99u8, 111u8, 99u8, 97u8, 115u8, 115u8, 34u8]
}

fn tok_name_decocass_v() -> (r: Vec<u8>)
    ensures
        r@ == tok_name_decocass(),
{
    let r: Vec<u8> = vec![110u8, 97u8, 109u8, 101u8, 61u8, 34u8, 100u8, 101u8, 99u8, 111u8, 99u8, 97u8, 115u8, 115u8, 34u8];
    proof {
        assert(r@ =~= tok_name_decocass());
    }
    r
}

/// The byte token `name="playch10"`.
pub open spec fn tok_name_playch10() -> Seq<u8> {
    seq![110u8, 97u8, 109u8, 101u8, 61u8, 34u8, 112u8, 108u8, 97u8, 121u8, 99u8, 104u8, 49u8, 48u8, 34u8]
}

fn tok_name_playch10_v() -> (r: Vec<u8>)
    ensures
        r@ == tok_name_playch10(),
{
    let r: Vec<u8> = vec![110u8, 97u8, 109u8, 101u8, 61u8, 34u8, 112u8, 108u8, 97u8, 121u8, 99u8, 104u8, 49u8, 48u8, 34u8];
    proof {
        assert(r@ =~= tok_name_playch10());
    }
    r
}

/// The byte token `name="megatech"`.
pub open spec fn tok_name_megatech() -> Seq<u8> {
    seq![110u8, 97u8, 109u8, 101u8, 61u8, 34u8, 109u8, 101u8, 103u8, 97u8, 116u8, 101u8, 99u8, 104u8, 34u8]
}

fn tok_name_megatech_v() -> (r: Vec<u8>)
    ensures
        r@ == tok_name_megatech(),
{
    let r: Vec<u8> = vec![110u8, 97u8, 109u8, 101u8, 61u8, 34u8, 109u8, 101u8, 103u8, 97u8, 116u8, 101u8, 99u8, 104u8, 34u8];
    proof {
        assert(r@ =~= tok_name_megatech());
    }
    r
}

/// The byte token `name="megaplay"`.
pub open spec fn tok_name_megaplay() -> Seq<u8> {
    seq![110u8, 97u8, 109u8, 101u8, 61u8, 34u8, 109u8, 101u8, 103u8, 97u8, 112u8, 108u8, 97u8, 121u8, 34u8]
}

fn tok_name_megaplay_v() -> (r: Vec<u8>)
    ensures
        r@ == tok_name_megaplay(),
{
    let r: Vec<u8> = vec![110u8, 97u8, 109u8, 101u8, 61u8, 34u8, 109u8, 101u8, 103u8, 97u8, 112u8, 108u8, 97u8, 121u8, 34u8];
    proof {
        assert(r@ =~= tok_name_megaplay());
    }
    r
}

/// The byte token `name="stvbios"`.
pub open spec fn tok_name_stvbios() -> Seq<u8> {
    seq![110u8, 97u8, 109u8, 101u8, 61u8, 34u8, 115u8, 116u8, 118u8, 98u8, 105u8, 111u8, 115u8, 34u8]
}

fn tok_name_stvbios_v() -> (r: Vec<u8>)
    ensures
        r@ == tok_name_stvbios(),
{
    let r: Vec<u8> = vec![110u8, 97u8, 109u8, 101u8, 61u8, 34u8, 115u8, 116u8, 118u8, 98u8, 105u8, 111u8, 115u8, 34u8];
    proof {
        assert(r@ =~= tok_name_stvbios());
    }
    r
}

/// The byte token `name="naomi"`.
pub open spec fn tok_name_naomi() -> Seq<u8> {
    seq![110u8, 97u8, 109u8, 101u8, 61u8, 34u8, 110u8, 97u8, 111u8, 109u8, 105u8, 34u8]
}

fn tok_name_naomi_v() -> (r: Vec<u8>)
    ensures
        r@ == tok_name_naomi(),
{
    let r: Vec<u8> = vec![110u8, 97u8, 109u8, 101u8, 61u8, 34u8, 110u8, 97u8, 111u8, 109u8, 105u8, 34u8];
    proof {
        assert(r@ =~= tok_name_naomi());
    }
    r
}

/// The byte token `name="naomi2"`.
pub open spec fn tok_name_naomi2() -> Seq<u8> {
    seq![110u8, 97u8, 109u8, 101u8, 61u8, 34u8, 110u8, 97u8, 111u8, 109u8, 105u8, 50u8, 34u8]
}

fn tok_name_naomi2_v() -> (r: Vec<u8>)
    ensures
        r@ == tok_name_naomi2(),
{
    let r: Vec<u8> = vec![110u8, 97u8, 109u8, 101u8, 61u8, 34u8, 110u8, 97u8, 111u8, 109u8, 105u8, 50u8, 34u8];
    proof {
        assert(r@ =~= tok_name_naomi2());
    }
    r
}

/// The byte token `name="awbios"`.
pub open spec fn tok_name_awbios() -> Seq<u8> {
    seq![110u8, 97u8, 109u8, 101u8, 61u8, 34u8, 97u8, 119u8, 98u8, 105u8, 111u8, 115u8, 34u8]
}

fn tok_name_awbios_v() -> (r: Vec<u8>)
    ensures
        r@ == tok_name_awbios(),
{
    let r: Vec<u8> = vec![110u8, 97u8, 109u8, 101u8, 61u8, 34u8, 97u8, 119u8, 98u8, 105u8, 111u8, 115u8, 34u8];
    proof {
        assert(r@ =~= tok_name_awbios());
    }
    r
}

/// The byte token `name="cpzn1"`.
pub open spec fn tok_name_cpzn1() -> Seq<u8> {
    seq![110u8, 97u8, 109u8, 101u8, 61u8, 34u8, 99u8, 112u8, 122u8, 110u8, 49u8, 34u8]
}

fn tok_name_cpzn1_v() -> (r: Vec<u8>)
    ensures
        r@ == tok_name_cpzn1(),
{
    let r: Vec<u8> = vec![110u8, 97u8, 109u8, 101u8, 61u8, 34u8, 99u8, 112u8, 122u8, 110u8, 49u8, 34u8];
    proof {
        assert(r@ =~= tok_name_cpzn1());
    }
    r
}

/// The byte token `name="cpzn2"`.
pub open spec fn tok_name_cpzn2() -> Seq<u8> {
    seq![110u8, 97u8, 109u8, 101u8, 61u8, 34u8, 99u8, 112u8, 122u8, 110u8, 50u8, 34u8]
}

fn tok_name_cpzn2_v() -> (r: Vec<u8>)
    ensures
        r@ == tok_name_cpzn2(),
{
    let r: Vec<u8> = vec![110u8, 97u8, 109u8, 101u8, 61u8, 34u8, 99u8, 112u8, 122u8, 110u8, 50u8, 34u8];
    proof {
        assert(r@ =~= tok_name_cpzn2());
    }
    r
}

/// Index of the first occurrence of `needle` in `hay`.
pub open spec fn first_sub_idx(hay: Seq<u8>, needle: Seq<u8>) -> int {
    choose|i: int|
        0 <= i && i + needle.len() <= hay.len() && #[trigger] hay.subrange(i, i + needle.len())
            == needle && (forall|j: int|
            0 <= j < i ==> #[trigger] hay.subrange(j, j + needle.len()) != needle)
}

proof fn lemma_first_sub(hay: Seq<u8>, needle: Seq<u8>, i: int)
    requires
        0 <= i,
        i + needle.len() <= hay.len(),
        hay.subrange(i, i + needle.len()) == needle,
        forall|j: int| 0 <= j < i ==> #[trigger] hay.subrange(j, j + needle.len()) != needle,
    ensures
        first_sub_idx(hay, needle) == i,
{
    let k = first_sub_idx(hay, needle);
    if k < i {
        assert(hay.subrange(k, k + needle.len()) != needle);
    } else if i < k {
        assert(hay.subrange(i, i + needle.len()) != needle);
    }
}

/// Text before the closing header tag, lower-cased.
pub open spec fn header_prefix(c: Seq<u8>) -> Seq<u8> {
    c.take(first_sub_idx(c, tok_header_end()))
}

/// Collection units declared: both tag spellings counted.
pub open spec fn unit_count(c: Seq<u8>) -> nat {
    count_matches(c, tok_game_tag()) + count_matches(c, tok_machine_tag())
}

pub open spec fn mame_header_signal(c: Seq<u8>) -> bool {
    is_substring(c, tok_header_end()) && {
        let hl = lower(header_prefix(c));
        ||| is_substring(hl, tok_mame())
        ||| is_substring(hl, tok_mame_long())
        ||| (is_substring(hl, tok_arcade()) && unit_count(c) > 100)
    }
}

pub open spec fn mame_name_signal(c: Seq<u8>) -> bool {
    ||| is_substring(c, tok_name_neogeo())
    ||| is_substring(c, tok_name_decocass())
    ||| is_substring(c, tok_name_playch10())
    ||| is_substring(c, tok_name_megatech())
    ||| is_substring(c, tok_name_megaplay())
    ||| is_substring(c, tok_name_stvbios())
    ||| is_substring(c, tok_name_naomi())
    ||| is_substring(c, tok_name_naomi2())
    ||| is_substring(c, tok_name_awbios())
    ||| is_substring(c, tok_name_cpzn1())
    ||| is_substring(c, tok_name_cpzn2())
}

/// Hierarchical-catalog signals in a content sample: explicit vocabulary,
/// parent/clone attribute pairs, very many declared units, a telling header,
/// or a known hierarchical-only unit name.
pub open spec fn mame_xml_spec(c: Seq<u8>) -> bool {
    ||| is_substring(c, tok_mame_build())
    ||| is_substring(c, tok_doctype_mame())
    ||| ((is_substring(c, tok_game_tag()) || is_substring(c, tok_machine_tag())) && (
    is_substring(c, tok_cloneof()) || is_substring(c, tok_romof())))
    ||| unit_count(c) > 1000
    ||| mame_header_signal(c)
    ||| mame_name_signal(c)
}

/// Decide `mame_xml_spec` on a content sample.
pub fn is_mame_xml(content: &[u8]) -> (r: bool)
    ensures
        r == mame_xml_spec(content@),
{
    if contains_sub(content, tok_mame_build_v().as_slice()) {
        return true;
    }
    if contains_sub(content, tok_doctype_mame_v().as_slice()) {
        return true;
    }
    let has_game_tags = contains_sub(content, tok_game_tag_v().as_slice()) || contains_sub(
        content,
        tok_machine_tag_v().as_slice(),
    );
    let has_clone_refs = contains_sub(content, tok_cloneof_v().as_slice()) || contains_sub(
        content,
        tok_romof_v().as_slice(),
    );
    if has_game_tags && has_clone_refs {
        return true;
    }
    let games = count_sub(content, tok_game_tag_v().as_slice());
    let machines = count_sub(content, tok_machine_tag_v().as_slice());
    let unit_total: u128 = (games as u128) + (machines as u128);
    if unit_total > 1000 {
        return true;
    }
    let header_hit: bool = match find_sub(content, tok_header_end_v().as_slice()) {
        Some(i) => {
            proof {
                lemma_first_sub(content@, tok_header_end(), i as int);
            }
            let header = copy_range(content, 0, i);
            let hl = to_lower(header.as_slice());
            contains_sub(hl.as_slice(), tok_mame_v().as_slice()) || contains_sub(
                hl.as_slice(),
                tok_mame_long_v().as_slice(),
            ) || (contains_sub(hl.as_slice(), tok_arcade_v().as_slice()) && unit_total > 100)
        },
        None => false,
    };
    if header_hit {
        return true;
    }
    contains_sub(content, tok_name_neogeo_v().as_slice()) || contains_sub(content, tok_name_decocass_v().as_slice()) || contains_sub(content, tok_name_playch10_v().as_slice()) || contains_sub(content, tok_name_megatech_v().as_slice()) || contains_sub(content, tok_name_megaplay_v().as_slice()) || contains_sub(content, tok_name_stvbios_v().as_slice()) || contains_sub(content, tok_name_naomi_v().as_slice()) || contains_sub(content, tok_name_naomi2_v().as_slice()) || contains_sub(content, tok_name_awbios_v().as_slice()) || contains_sub(content, tok_name_cpzn1_v().as_slice()) || contains_sub(content, tok_name_cpzn2_v().as_slice())
}

/// A file name that advertises a hierarchical catalog.
pub open spec fn mame_filename_spec(f: Seq<u8>) -> bool {
    let lf = lower(f);
    ||| is_substring(lf, tok_mame())
    ||| is_substring(lf, tok_arcade())
    ||| (is_substring(lf, tok_rom_word()) && (is_substring(lf, tok_merged()) || is_substring(
        lf,
        tok_split(),
    )))
}

pub fn is_mame_filename(filename: &[u8]) -> (r: bool)
    ensures
        r == mame_filename_spec(filename@),
{
    let lf = to_lower(filename);
    contains_sub(lf.as_slice(), tok_mame_v().as_slice()) || contains_sub(
        lf.as_slice(),
        tok_arcade_v().as_slice(),
    ) || (contains_sub(lf.as_slice(), tok_rom_word_v().as_slice()) && (contains_sub(
        lf.as_slice(),
        tok_merged_v().as_slice(),
    ) || contains_sub(lf.as_slice(), tok_split_v().as_slice())))
}

/// Set-type detection: case-insensitive token search in the file name first,
/// then in the content sample; Standard when nothing matches.
pub open spec fn detect_spec(fname: Seq<u8>, content: Option<Seq<u8>>) -> DatType {
    let lf = lower(fname);
    if is_substring(lf, tok_non_merged_dash()) || is_substring(lf, tok_nonmerged())
        || is_substring(lf, tok_non_merged_space()) {
        DatType::NonMerged
    } else if is_substring(lf, tok_split()) && !is_substring(lf, tok_non()) {
        DatType::Split
    } else if is_substring(lf, tok_merged()) && !is_substring(lf, tok_non()) && !is_substring(
        lf,
        tok_split(),
    ) {
        DatType::Merged
    } else {
        match content {
            Some(c) => {
                let lc = lower(c);
                if is_substring(lc, tok_non_merged_dash()) || is_substring(lc, tok_nonmerged()) {
                    DatType::NonMerged
                } else if is_substring(lc, tok_split()) && !is_substring(lc, tok_non()) {
                    DatType::Split
                } else if is_substring(lc, tok_merged()) && !is_substring(
                    lc,
                    tok_non_merged_dash(),
                ) {
                    DatType::Merged
                } else {
                    DatType::Standard
                }
            },
            None => DatType::Standard,
        }
    }
}

pub fn detect_dat_type(filename: &[u8], content: Option<&[u8]>) -> (r: DatType)
    ensures
        r == detect_spec(filename@, match content {
            Some(c) => Some(c@),
            None => None,
        }),
{
    let lf = to_lower(filename);
    if contains_sub(lf.as_slice(), tok_non_merged_dash_v().as_slice()) || contains_sub(
        lf.as_slice(),
        tok_nonmerged_v().as_slice(),
    ) || contains_sub(lf.as_slice(), tok_non_merged_space_v().as_slice()) {
        return DatType::NonMerged;
    }
    if contains_sub(lf.as_slice(), tok_split_v().as_slice()) && !contains_sub(
        lf.as_slice(),
        tok_non_v().as_slice(),
    ) {
        return DatType::Split;
    }
    if contains_sub(lf.as_slice(), tok_merged_v().as_slice()) && !contains_sub(
        lf.as_slice(),
        tok_non_v().as_slice(),
    ) && !contains_sub(lf.as_slice(), tok_split_v().as_slice()) {
        return DatType::Merged;
    }
    match content {
        Some(c) => {
            let lc = to_lower(c);
            if contains_sub(lc.as_slice(), tok_non_merged_dash_v().as_slice()) || contains_sub(
                lc.as_slice(),
                tok_nonmerged_v().as_slice(),
            ) {
                DatType::NonMerged
            } else if contains_sub(lc.as_slice(), tok_split_v().as_slice()) && !contains_sub(
                lc.as_slice(),
                tok_non_v().as_slice(),
            ) {
                DatType::Split
            } else if contains_sub(lc.as_slice(), tok_merged_v().as_slice()) && !contains_sub(
                lc.as_slice(),
                tok_non_merged_dash_v().as_slice(),
            ) {
                DatType::Merged
            } else {
                DatType::Standard
            }
        },
        None => DatType::Standard,
    }
}

/// Display name of a set type.
pub fn dat_type_name(dat_type: &DatType) -> (r: &'static str)
    ensures
        *dat_type == DatType::NonMerged ==> r@ == "Non-merged (self-contained games)"@,
        *dat_type == DatType::Split ==> r@ == "Split (clones depend on parents)"@,
        *dat_type == DatType::Merged ==> r@ == "Merged (clones in parent folders)"@,
        *dat_type == DatType::Standard ==> r@ == "Standard"@,
{
    match dat_type {
        DatType::NonMerged => "Non-merged (self-contained games)",
        DatType::Split => "Split (clones depend on parents)",
        DatType::Merged => "Merged (clones in parent folders)",
        DatType::Standard => "Standard",
    }
}

} // verus!
