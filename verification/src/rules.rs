//! Folder-need rules: whether a game's content must live in its own
//! subdirectory, built on a name-similarity heuristic between a game name and
//! its single entry's file stem.

use vstd::prelude::*;
use crate::bytes::{
    contains_byte, contains_byte_from, copy_range, bytes_eq, has_byte, is_ascii_alnum,
    is_alnum_byte, is_substring, lower, upper, to_lower, to_upper, contains_sub, find_byte,
    rfind_byte,
};
use crate::config::Config;
use crate::db::{GameSet, RomDb};

verus! {

// ---------------------------------------------------------------------------
// File stems
// ---------------------------------------------------------------------------
pub open spec fn is_sep_byte(b: u8) -> bool {
    b == 47 || b == 92
}

pub open spec fn has_sep(s: Seq<u8>) -> bool {
    exists|i: int| 0 <= i < s.len() && is_sep_byte(s[i])
}

pub open spec fn last_sep_idx(s: Seq<u8>) -> int {
    choose|i: int|
        0 <= i < s.len() && is_sep_byte(s[i]) && (forall|j: int|
            i < j < s.len() ==> !is_sep_byte(s[j]))
}

/// The part of a declared name after its last path separator.
pub open spec fn base_component(s: Seq<u8>) -> Seq<u8> {
    if has_sep(s) {
        s.skip(last_sep_idx(s) + 1)
    } else {
        s
    }
}

/// A dot at index >= 1 (a leading dot marks a hidden name, not an extension).
pub open spec fn has_dot_after0(s: Seq<u8>) -> bool {
    exists|i: int| 1 <= i < s.len() && s[i] == 46
}

pub open spec fn last_dot_idx(s: Seq<u8>) -> int {
    choose|i: int| 1 <= i < s.len() && s[i] == 46 && (forall|j: int| i < j < s.len() ==> s[j] != 46)
}

/// `s` with its extension stripped.
pub open spec fn strip_ext(s: Seq<u8>) -> Seq<u8> {
    if has_dot_after0(s) {
        s.take(last_dot_idx(s))
    } else {
        s
    }
}

/// File stem of a declared name: last path component, extension stripped.
pub open spec fn stem_of(s: Seq<u8>) -> Seq<u8> {
    strip_ext(base_component(s))
}

proof fn lemma_last_sep(s: Seq<u8>, i: int)
    requires
        0 <= i < s.len(),
        is_sep_byte(s[i]),
        forall|j: int| i < j < s.len() ==> !is_sep_byte(s[j]),
    ensures
        has_sep(s),
        last_sep_idx(s) == i,
{
    assert(has_sep(s));
    let k = last_sep_idx(s);
    if k < i {
        assert(!is_sep_byte(s[i]));
    } else if i < k {
        assert(!is_sep_byte(s[k]));
    }
}

proof fn lemma_last_dot(s: Seq<u8>, i: int)
    requires
        1 <= i < s.len(),
        s[i] == 46,
        forall|j: int| i < j < s.len() ==> s[j] != 46,
    ensures
        has_dot_after0(s),
        last_dot_idx(s) == i,
{
    assert(has_dot_after0(s));
    let k = last_dot_idx(s);
    if k < i {
        assert(s[i] != 46);
    } else if i < k {
        assert(s[k] != 46);
    }
}

/// Last index holding a path separator, if any.
fn rfind_sep(s: &[u8]) -> (r: Option<usize>)
    ensures
        match r {
            Some(i) => 0 <= i < s@.len() && is_sep_byte(s@[i as int]) && forall|j: int|
                i < j < s@.len() ==> !is_sep_byte(s@[j]),
            None => !has_sep(s@),
        },
{
    let mut i: usize = s.len();
    while i > 0
        invariant
            0 <= i <= s@.len(),
            forall|j: int| i <= j < s@.len() ==> !is_sep_byte(s@[j]),
        decreases i,
    {
        i = i - 1;
        if s[i] == 47 || s[i] == 92 {
            return Some(i);
        }
    }
    None
}

/// The file-name part of a path: what follows the last separator.
pub fn file_name_of(path: &[u8]) -> (r: Vec<u8>)
    ensures
        r@ == base_component(path@),
{
    let n: usize = path.len();
    let start: usize = match rfind_sep(path) {
        Some(i) => {
            proof {
                lemma_last_sep(path@, i as int);
            }
            i + 1
        },
        None => 0,
    };
    let r = copy_range(path, start, n);
    proof {
        if has_sep(path@) {
            assert(r@ == base_component(path@));
        } else {
            assert(r@ =~= path@);
        }
    }
    r
}

/// File stem of a declared name.
pub fn split_stem(name: &[u8]) -> (r: Vec<u8>)
    ensures
        r@ == stem_of(name@),
{
    let n: usize = name.len();
    let start: usize = match rfind_sep(name) {
        Some(i) => {
            proof {
                lemma_last_sep(name@, i as int);
            }
            i + 1
        },
        None => 0,
    };
    let base = copy_range(name, start, name.len());
    proof {
        if has_sep(name@) {
            assert(base@ == base_component(name@));
        } else {
            assert(base@ =~= name@);
        }
    }
    match rfind_byte(base.as_slice(), 46) {
        Some(d) => {
            if d > 0 {
                proof {
                    lemma_last_dot(base@, d as int);
                }
                let r = copy_range(base.as_slice(), 0, d);
                proof {
                    assert(r@ =~= base@.take(d as int));
                }
                r
            } else {
                proof {
                    assert(!has_dot_after0(base@));
                }
                base
            }
        },
        None => {
            proof {
                assert(!has_dot_after0(base@));
            }
            base
        },
    }
}

// ---------------------------------------------------------------------------
// Base names: qualifiers stripped
// ---------------------------------------------------------------------------
/// One left-to-right pass removing bracketed qualifiers: a `[...]` group is
/// dropped (with one following space) whenever a closing bracket lies ahead.
pub open spec fn strip_brackets_from(s: Seq<u8>, i: int, in_br: bool) -> Seq<u8>
    decreases s.len() - i,
{
    if i < 0 || i >= s.len() {
        Seq::<u8>::empty()
    } else if in_br {
        if s[i] == 93 {
            if i + 1 < s.len() && s[i + 1] == 32 {
                strip_brackets_from(s, i + 2, false)
            } else {
                strip_brackets_from(s, i + 1, false)
            }
        } else {
            strip_brackets_from(s, i + 1, true)
        }
    } else if s[i] == 91 && has_byte(s.skip(i), 93) {
        strip_brackets_from(s, i + 1, true)
    } else {
        seq![s[i]] + strip_brackets_from(s, i + 1, false)
    }
}

pub open spec fn first_idx_of(s: Seq<u8>, b: u8) -> int {
    choose|i: int| 0 <= i < s.len() && s[i] == b && (forall|j: int| 0 <= j < i ==> s[j] != b)
}

proof fn lemma_first_idx(s: Seq<u8>, b: u8, i: int)
    requires
        0 <= i < s.len(),
        s[i] == b,
        forall|j: int| 0 <= j < i ==> s[j] != b,
    ensures
        has_byte(s, b),
        first_idx_of(s, b) == i,
{
    assert(has_byte(s, b));
    let k = first_idx_of(s, b);
    if k < i {
        assert(s[k] != b);
    } else if i < k {
        assert(s[i] != b);
    }
}

/// Truncate at the first opening parenthesis.
pub open spec fn cut_paren(s: Seq<u8>) -> Seq<u8> {
    if has_byte(s, 40) {
        s.take(first_idx_of(s, 40))
    } else {
        s
    }
}

pub open spec fn is_ws(b: u8) -> bool {
    b == 32 || b == 9 || b == 10 || b == 13
}

pub open spec fn trim_left(s: Seq<u8>) -> Seq<u8>
    decreases s.len(),
{
    if s.len() > 0 && is_ws(s[0]) {
        trim_left(s.skip(1))
    } else {
        s
    }
}

pub open spec fn trim_right(s: Seq<u8>) -> Seq<u8>
    decreases s.len(),
{
    if s.len() > 0 && is_ws(s[s.len() - 1]) {
        trim_right(s.drop_last())
    } else {
        s
    }
}

pub open spec fn trim(s: Seq<u8>) -> Seq<u8> {
    trim_right(trim_left(s))
}

/// The comparison form of a name: stem, bracketed qualifiers removed,
/// truncated at the first parenthesis, whitespace-trimmed.
pub open spec fn base_name_spec(s: Seq<u8>) -> Seq<u8> {
    trim(cut_paren(strip_brackets_from(stem_of(s), 0, false)))
}

proof fn lemma_trim_left_skip(s: Seq<u8>, a: int)
    requires
        0 <= a <= s.len(),
        forall|j: int| 0 <= j < a ==> is_ws(s[j]),
        a < s.len() ==> !is_ws(s[a]),
    ensures
        trim_left(s) == s.skip(a),
    decreases a,
{
    if a == 0 {
        assert(trim_left(s) == s);
        assert(s.skip(0) =~= s);
    } else {
        assert(is_ws(s[0]));
        let t = s.skip(1);
        assert forall|j: int| 0 <= j < a - 1 implies is_ws(t[j]) by {
            assert(t[j] == s[j + 1]);
        }
        if a - 1 < t.len() {
            assert(t[a - 1] == s[a]);
        }
        lemma_trim_left_skip(t, a - 1);
        assert(t.skip(a - 1) =~= s.skip(a));
    }
}

proof fn lemma_trim_right_take(s: Seq<u8>, e: int)
    requires
        0 <= e <= s.len(),
        forall|j: int| e <= j < s.len() ==> is_ws(s[j]),
        e > 0 ==> !is_ws(s[e - 1]),
    ensures
        trim_right(s) == s.take(e),
    decreases s.len() - e,
{
    if e == s.len() {
        assert(trim_right(s) == s);
        assert(s.take(e) =~= s);
    } else {
        assert(is_ws(s[s.len() - 1]));
        let t = s.drop_last();
        lemma_trim_right_take(t, e);
        assert(t.take(e) =~= s.take(e));
    }
}

/// Whitespace-trim on both ends.
pub fn trim_bytes(s: &[u8]) -> (r: Vec<u8>)
    ensures
        r@ == trim(s@),
{
    let n: usize = s.len();
    let mut a: usize = 0;
    while a < n && (s[a] == 32 || s[a] == 9 || s[a] == 10 || s[a] == 13)
        invariant
            0 <= a <= n,
            n == s@.len(),
            forall|j: int| 0 <= j < a ==> is_ws(s@[j]),
        decreases n - a,
    {
        a = a + 1;
    }
    proof {
        lemma_trim_left_skip(s@, a as int);
    }
    let ghost t = s@.skip(a as int);
    let mut e: usize = n;
    while e > a && (s[e - 1] == 32 || s[e - 1] == 9 || s[e - 1] == 10 || s[e - 1] == 13)
        invariant
            a <= e <= n,
            n == s@.len(),
            forall|j: int| e <= j < n ==> is_ws(s@[j]),
        decreases e,
    {
        e = e - 1;
    }
    proof {
        assert forall|j: int| (e - a) <= j < t.len() implies is_ws(t[j]) by {
            assert(t[j] == s@[a + j]);
        }
        if e > a {
            assert(t[e - a - 1] == s@[e - 1]);
        }
        lemma_trim_right_take(t, e - a as int);
        assert(t.take(e - a as int) =~= s@.subrange(a as int, e as int));
    }
    copy_range(s, a, e)
}

/// Base name of `name`, per `base_name_spec`.
pub fn extract_base_name(name: &[u8]) -> (r: Vec<u8>)
    ensures
        r@ == base_name_spec(name@),
{
    let stem = split_stem(name);
    let ghost sm = stem@;

    // Remove bracketed qualifiers in one pass.
    let mut out: Vec<u8> = Vec::new();
    let mut i: usize = 0;
    let mut in_br: bool = false;
    while i < stem.len()
        invariant
            0 <= i <= sm.len(),
            stem@ == sm,
            out@ + strip_brackets_from(sm, i as int, in_br) == strip_brackets_from(sm, 0, false),
        decreases sm.len() - i,
    {
        let b = stem[i];
        if in_br {
            if b == 93 {
                if i + 1 < stem.len() && stem[i + 1] == 32 {
                    i = i + 2;
                } else {
                    i = i + 1;
                }
                in_br = false;
            } else {
                i = i + 1;
            }
        } else if b == 91 && contains_byte_from(stem.as_slice(), i, 93) {
            in_br = true;
            i = i + 1;
        } else {
            out.push(b);
            proof {
                assert(out@ + strip_brackets_from(sm, i + 1 as int, false) =~= out@.drop_last() + (
                seq![sm[i as int]] + strip_brackets_from(sm, i + 1 as int, false)));
            }
            i = i + 1;
        }
    }
    proof {
        assert(strip_brackets_from(sm, i as int, in_br) =~= Seq::<u8>::empty());
        assert(out@ + Seq::<u8>::empty() =~= out@);
    }

    // Truncate at the first parenthesis.
    let cut: Vec<u8> = match find_byte(out.as_slice(), 40) {
        Some(p) => {
            proof {
                lemma_first_idx(out@, 40, p as int);
            }
            let c = copy_range(out.as_slice(), 0, p);
            proof {
                assert(c@ =~= out@.take(p as int));
            }
            c
        },
        None => out,
    };

    trim_bytes(cut.as_slice())
}

// ---------------------------------------------------------------------------
// Significant words
// ---------------------------------------------------------------------------
pub open spec fn stops_model(sw: Seq<Vec<u8>>) -> Seq<Seq<u8>> {
    sw.map_values(|w: Vec<u8>| w@)
}

pub open spec fn stops_has(stops: Seq<Seq<u8>>, w: Seq<u8>) -> bool {
    exists|i: int| 0 <= i < stops.len() && stops[i] == w
}

/// Keep `w` when it is long enough, configured as significant, and new.
pub open spec fn add_word(acc: Seq<Seq<u8>>, w: Seq<u8>, stops: Seq<Seq<u8>>) -> Seq<Seq<u8>> {
    if w.len() > 2 && !stops_has(stops, w) && !acc.contains(w) {
        acc.push(w)
    } else {
        acc
    }
}

/// Scan of `s` from position `i`, with the alphanumeric run `cur` pending:
/// the distinct significant words of `s`, in first-occurrence order.
pub open spec fn sig_from(
    s: Seq<u8>,
    i: int,
    cur: Seq<u8>,
    acc: Seq<Seq<u8>>,
    stops: Seq<Seq<u8>>,
) -> Seq<Seq<u8>>
    decreases s.len() - i,
{
    if i < 0 || i >= s.len() {
        add_word(acc, cur, stops)
    } else if is_ascii_alnum(s[i]) {
        sig_from(s, i + 1, cur.push(s[i]), acc, stops)
    } else {
        sig_from(s, i + 1, Seq::<u8>::empty(), add_word(acc, cur, stops), stops)
    }
}

/// Distinct significant words of `s`: maximal alphanumeric runs longer than
/// two bytes that are not stop words, in first-occurrence order.
pub open spec fn sig_words(s: Seq<u8>, stops: Seq<Seq<u8>>) -> Seq<Seq<u8>> {
    sig_from(s, 0, Seq::<u8>::empty(), Seq::<Seq<u8>>::empty(), stops)
}

/// Members of `xs` that occur in `ys`.
pub open spec fn count_in(xs: Seq<Seq<u8>>, ys: Seq<Seq<u8>>) -> nat
    decreases xs.len(),
{
    if xs.len() == 0 {
        0
    } else {
        count_in(xs.drop_last(), ys) + if ys.contains(xs.last()) {
            1nat
        } else {
            0
        }
    }
}

fn stops_contain(stop_words: &Vec<Vec<u8>>, w: &[u8]) -> (r: bool)
    ensures
        r == stops_has(stops_model(stop_words@), w@),
{
    let mut i: usize = 0;
    while i < stop_words.len()
        invariant
            0 <= i <= stop_words@.len(),
            forall|j: int| 0 <= j < i ==> stop_words@[j]@ != w@,
        decreases stop_words@.len() - i,
    {
        if bytes_eq(stop_words[i].as_slice(), w) {
            proof {
                assert(stops_model(stop_words@)[i as int] == w@);
            }
            return true;
        }
        i = i + 1;
    }
    proof {
        assert forall|j: int|
            0 <= j < stops_model(stop_words@).len() implies stops_model(stop_words@)[j]
            != w@ by {
            assert(stops_model(stop_words@)[j] == stop_words@[j]@);
        }
    }
    false
}

fn list_has(list: &Vec<Vec<u8>>, w: &[u8]) -> (r: bool)
    ensures
        r == list@.map_values(|v: Vec<u8>| v@).contains(w@),
{
    let ghost m = list@.map_values(|v: Vec<u8>| v@);
    let mut i: usize = 0;
    while i < list.len()
        invariant
            0 <= i <= list@.len(),
            m == list@.map_values(|v: Vec<u8>| v@),
            forall|j: int| 0 <= j < i ==> list@[j]@ != w@,
        decreases list@.len() - i,
    {
        if bytes_eq(list[i].as_slice(), w) {
            proof {
                assert(m[i as int] == w@);
            }
            return true;
        }
        i = i + 1;
    }
    proof {
        assert forall|j: int| 0 <= j < m.len() implies m[j] != w@ by {
            assert(m[j] == list@[j]@);
        }
    }
    false
}

/// Distinct significant words of `text`, in first-occurrence order.
pub fn extract_significant_words(text: &[u8], stop_words: &Vec<Vec<u8>>) -> (r: Vec<Vec<u8>>)
    ensures
        r@.map_values(|v: Vec<u8>| v@) == sig_words(text@, stops_model(stop_words@)),
{
    let ghost stops = stops_model(stop_words@);
    let mut acc: Vec<Vec<u8>> = Vec::new();
    let mut cur: Vec<u8> = Vec::new();
    proof {
        assert(acc@.map_values(|v: Vec<u8>| v@) =~= Seq::<Seq<u8>>::empty());
    }
    let mut i: usize = 0;
    while i < text.len()
        invariant
            0 <= i <= text@.len(),
            stops == stops_model(stop_words@),
            sig_from(text@, i as int, cur@, acc@.map_values(|v: Vec<u8>| v@), stops) == sig_words(
                text@,
                stops,
            ),
        decreases text@.len() - i,
    {
        let b = text[i];
        if is_alnum_byte(b) {
            cur.push(b);
        } else {
            push_word(&mut acc, &mut cur, stop_words);
        }
        i = i + 1;
    }
    push_word(&mut acc, &mut cur, stop_words);
    acc
}

/// Flush the pending run `cur` into `acc` per `add_word`, leaving `cur` empty.
fn push_word(acc: &mut Vec<Vec<u8>>, cur: &mut Vec<u8>, stop_words: &Vec<Vec<u8>>)
    ensures
        final(acc)@.map_values(|v: Vec<u8>| v@) == add_word(
            old(acc)@.map_values(|v: Vec<u8>| v@),
            old(cur)@,
            stops_model(stop_words@),
        ),
        final(cur)@ == Seq::<u8>::empty(),
{
    let ghost m = acc@.map_values(|v: Vec<u8>| v@);
    let keep: bool = if cur.len() > 2 {
        if stops_contain(stop_words, cur.as_slice()) {
            false
        } else {
            !list_has(acc, cur.as_slice())
        }
    } else {
        false
    };
    if keep {
        let w = copy_range(cur.as_slice(), 0, cur.len());
        proof {
            assert(w@ =~= old(cur)@);
        }
        acc.push(w);
        cur.clear();
        proof {
            assert(acc@.map_values(|v: Vec<u8>| v@) =~= m.push(old(cur)@));
        }
    } else {
        cur.clear();
    }
}

// ---------------------------------------------------------------------------
// Similarity
// ---------------------------------------------------------------------------
pub open spec fn has_upper_alpha(s: Seq<u8>) -> bool {
    exists|i: int| 0 <= i < s.len() && 65 <= #[trigger] s[i] <= 90
}

fn contains_upper_alpha(s: &[u8]) -> (r: bool)
    ensures
        r == has_upper_alpha(s@),
{
    let mut i: usize = 0;
    while i < s.len()
        invariant
            0 <= i <= s@.len(),
            forall|j: int| 0 <= j < i ==> !(65 <= #[trigger] s@[j] <= 90),
        decreases s@.len() - i,
    {
        if 65 <= s[i] && s[i] <= 90 {
            return true;
        }
        i = i + 1;
    }
    false
}

pub open spec fn min_nat(a: nat, b: nat) -> nat {
    if a <= b {
        a
    } else {
        b
    }
}

/// Word-overlap stage: both names have at least two significant words and at
/// least seventy percent of the smaller word set recurs in the other.
pub open spec fn word_overlap(ga: Seq<Seq<u8>>, ra: Seq<Seq<u8>>) -> bool {
    ga.len() >= 2 && ra.len() >= 2 && 10 * count_in(ga, ra) >= 7 * min_nat(ga.len(), ra.len())
}

/// The similarity heuristic between a game name and a declared entry name.
/// Staged: an exact stem match passes; a stem that swaps spaces for
/// separators, or that is fully upper-case against a mixed-case game name,
/// fails; otherwise the qualifier-stripped base names are compared exactly,
/// case-insensitively (game base longer than 8), by containment (both bases
/// longer than 5), and finally by significant-word overlap.
pub open spec fn similar_spec(game: Seq<u8>, rom: Seq<u8>, stops: Seq<Seq<u8>>) -> bool {
    let stem = stem_of(rom);
    if stem == game {
        true
    } else if has_byte(game, 32) && !has_byte(stem, 32) && (has_byte(stem, 95) || has_byte(
        stem,
        46,
    )) {
        false
    } else if has_upper_alpha(stem) && stem == upper(stem) && game != upper(game) {
        false
    } else {
        let gb = base_name_spec(game);
        let rb = base_name_spec(rom);
        if gb == rb {
            true
        } else if gb.len() > 8 && lower(gb) == lower(rb) {
            true
        } else if gb.len() > 5 && rb.len() > 5 && (is_substring(lower(gb), lower(rb))
            || is_substring(lower(rb), lower(gb))) {
            true
        } else {
            word_overlap(
                sig_words(lower(gb), stops),
                sig_words(lower(rb), stops),
            )
        }
    }
}

/// Decides `similar_spec` for a game name and a declared entry name.
pub fn is_rom_name_similar_to_game(game_name: &[u8], rom_name: &[u8], config: &Config) -> (r:
    bool)
    ensures
        r == similar_spec(game_name@, rom_name@, stops_model(config.stop_words@)),
{
    let ghost stops = stops_model(config.stop_words@);
    let stem = split_stem(rom_name);

    if bytes_eq(stem.as_slice(), game_name) {
        return true;
    }
    let game_has_space = contains_byte(game_name, 32);
    let stem_has_space = contains_byte(stem.as_slice(), 32);
    let stem_has_sepchar = contains_byte(stem.as_slice(), 95) || contains_byte(
        stem.as_slice(),
        46,
    );
    if game_has_space && !stem_has_space && stem_has_sepchar {
        return false;
    }
    let stem_upper = to_upper(stem.as_slice());
    let game_upper = to_upper(game_name);
    if contains_upper_alpha(stem.as_slice()) && bytes_eq(stem.as_slice(), stem_upper.as_slice())
        && !bytes_eq(game_name, game_upper.as_slice()) {
        return false;
    }
    let gb = extract_base_name(game_name);
    let rb = extract_base_name(rom_name);
    if bytes_eq(gb.as_slice(), rb.as_slice()) {
        return true;
    }
    let gbl = to_lower(gb.as_slice());
    let rbl = to_lower(rb.as_slice());
    if gb.len() > 8 && bytes_eq(gbl.as_slice(), rbl.as_slice()) {
        return true;
    }
    if gb.len() > 5 && rb.len() > 5 && (contains_sub(gbl.as_slice(), rbl.as_slice())
        || contains_sub(rbl.as_slice(), gbl.as_slice())) {
        return true;
    }

    let ga = extract_significant_words(gbl.as_slice(), &config.stop_words);
    let ra = extract_significant_words(rbl.as_slice(), &config.stop_words);
    if ga.len() >= 2 && ra.len() >= 2 {
        let common = count_common(&ga, &ra);
        let small: usize = if ga.len() <= ra.len() {
            ga.len()
        } else {
            ra.len()
        };
        (common as u128) * 10 >= (small as u128) * 7
    } else {
        false
    }
}

/// Members of `xs` (distinct by construction) that recur in `ys`.
fn count_common(xs: &Vec<Vec<u8>>, ys: &Vec<Vec<u8>>) -> (r: usize)
    ensures
        r == count_in(
            xs@.map_values(|v: Vec<u8>| v@),
            ys@.map_values(|v: Vec<u8>| v@),
        ),
{
    let ghost xm = xs@.map_values(|v: Vec<u8>| v@);
    let ghost ym = ys@.map_values(|v: Vec<u8>| v@);
    let mut count: usize = 0;
    let mut i: usize = 0;
    while i < xs.len()
        invariant
            0 <= i <= xs@.len(),
            count <= i,
            xm == xs@.map_values(|v: Vec<u8>| v@),
            ym == ys@.map_values(|v: Vec<u8>| v@),
            count == count_in(xm.take(i as int), ym),
        decreases xs@.len() - i,
    {
        if list_has(ys, xs[i].as_slice()) {
            count = count + 1;
        }
        proof {
            assert(xm.take(i + 1 as int).drop_last() =~= xm.take(i as int));
            assert(xm.take(i + 1 as int).last() == xm[i as int]);
            assert(xm[i as int] == xs@[i as int]@);
        }
        i = i + 1;
    }
    proof {
        assert(xm.take(i as int) =~= xm);
    }
    count
}

// ---------------------------------------------------------------------------
// Folder need per game
// ---------------------------------------------------------------------------
/// The index declares an entry of game `g` named `n`.
pub open spec fn db_has_entry(db: RomDb, g: Seq<u8>, n: Seq<u8>) -> bool {
    exists|i: int, k: int|
        0 <= i < db.rows@.len() && 0 <= k < db.rows@[i]@.len() && db.rows@[i]@[k]@.game == g
            && db.rows@[i]@[k]@.name == n
}

/// The index declares some entry of game `g`.
pub open spec fn db_has_game(db: RomDb, g: Seq<u8>) -> bool {
    exists|i: int, k: int|
        0 <= i < db.rows@.len() && 0 <= k < db.rows@[i]@.len() && db.rows@[i]@[k]@.game == g
}

/// The index declares a disk-image entry of game `g`.
pub open spec fn db_has_disk(db: RomDb, g: Seq<u8>) -> bool {
    exists|i: int, k: int|
        0 <= i < db.rows@.len() && 0 <= k < db.rows@[i]@.len() && db.rows@[i]@[k]@.game == g
            && db.rows@[i]@[k]@.is_disk
}

/// `g` declares two distinct entry names.
pub open spec fn multi_names(db: RomDb, g: Seq<u8>) -> bool {
    exists|n1: Seq<u8>, n2: Seq<u8>|
        #[trigger] db_has_entry(db, g, n1) && #[trigger] db_has_entry(db, g, n2) && n1 != n2
}

/// A game needs its own subdirectory when it declares more than one distinct
/// entry name, or a disk image, or an entry name holding a path separator,
/// or an entry name whose stem is not similar enough to the game name.
pub open spec fn needs_folder_spec(db: RomDb, g: Seq<u8>, stops: Seq<Seq<u8>>) -> bool {
    ||| db_has_disk(db, g)
    ||| multi_names(db, g)
    ||| exists|n: Seq<u8>|
        #[trigger] db_has_entry(db, g, n) && (has_sep(n) || !similar_spec(g, n, stops))
}

/// A game with two declared entries of distinct names always classifies as
/// needing its own subdirectory, whatever the names look like.
pub proof fn lemma_two_entries_need_folder(
    db: RomDb,
    g: Seq<u8>,
    n1: Seq<u8>,
    n2: Seq<u8>,
    stops: Seq<Seq<u8>>,
)
    requires
        db_has_entry(db, g, n1),
        db_has_entry(db, g, n2),
        n1 != n2,
    ensures
        needs_folder_spec(db, g, stops),
{
    assert(multi_names(db, g));
}

/// Per-game distinct entry names and disk flag, collected from the index.
pub struct GameInfoMap {
    pub games: Vec<Vec<u8>>,
    pub names: Vec<GameSet>,
    pub disks: Vec<bool>,
}

impl GameInfoMap {
    pub open spec fn wf(self) -> bool {
        &&& self.games@.len() == self.names@.len()
        &&& self.games@.len() == self.disks@.len()
        &&& forall|i: int, j: int|
            0 <= i < j < self.games@.len() ==> self.games@[i]@ != self.games@[j]@
        &&& forall|i: int|
            0 <= i < self.names@.len() ==> (#[trigger] self.names@[i]).wf()
                && self.names@[i].card() >= 1
    }

    pub open spec fn contains_game(self, g: Seq<u8>) -> bool {
        exists|i: int| 0 <= i < self.games@.len() && self.games@[i]@ == g
    }

    pub open spec fn idx_of(self, g: Seq<u8>) -> int {
        choose|i: int| 0 <= i < self.games@.len() && self.games@[i]@ == g
    }

    pub open spec fn names_at(self, g: Seq<u8>) -> GameSet {
        self.names@[self.idx_of(g)]
    }

    pub open spec fn disk_at(self, g: Seq<u8>) -> bool {
        self.disks@[self.idx_of(g)]
    }

    fn new() -> (r: GameInfoMap)
        ensures
            r.wf(),
            r.games@.len() == 0,
            forall|g: Seq<u8>| !r.contains_game(g),
    {
        GameInfoMap { games: Vec::new(), names: Vec::new(), disks: Vec::new() }
    }

    /// Note one declared entry (game `g`, name `n`, disk flag `d`).
    fn add(&mut self, g: &[u8], n: &[u8], d: bool)
        requires
            old(self).wf(),
        ensures
            final(self).wf(),
            add_post(*old(self), *final(self), g@, n@, d),
    {
        let mut i: usize = 0;
        let cnt: usize = self.games.len();
        while i < cnt
            invariant
                0 <= i <= cnt,
                cnt == self.games@.len(),
                self.wf(),
                *self == *old(self),
                forall|j: int| 0 <= j < i ==> self.games@[j]@ != g@,
            decreases cnt - i,
        {
            if bytes_eq(self.games[i].as_slice(), g) {
                let mut gs = self.names.remove(i);
                gs.insert(n);
                self.names.insert(i, gs);
                let had = self.disks.remove(i);
                self.disks.insert(i, had || d);
                proof {
                    let pre = *old(self);
                    assert(self.games == pre.games);
                    assert(self.names@ =~= pre.names@.update(i as int, self.names@[i as int]));
                    assert(self.disks@ =~= pre.disks@.update(i as int, self.disks@[i as int]));
                    lemma_info_unique(pre, g@, i as int);
                    lemma_info_unique(*self, g@, i as int);
                    assert forall|g2: Seq<u8>| g2 != g@ implies #[trigger] self.contains_game(
                        g2,
                    ) == pre.contains_game(g2) by {
                        if self.contains_game(g2) {
                            let j = choose|j: int|
                                0 <= j < self.games@.len() && self.games@[j]@ == g2;
                            assert(pre.games@[j]@ == g2);
                        }
                        if pre.contains_game(g2) {
                            let j = choose|j: int|
                                0 <= j < pre.games@.len() && pre.games@[j]@ == g2;
                            assert(self.games@[j]@ == g2);
                        }
                    }
                    assert forall|g2: Seq<u8>|
                        g2 != g@ && pre.contains_game(g2) implies #[trigger] self.names_at(g2)
                        == pre.names_at(g2) && self.disk_at(g2) == pre.disk_at(g2) by {
                        let j = choose|j: int|
                            0 <= j < pre.games@.len() && pre.games@[j]@ == g2;
                        assert(self.games@[j]@ == g2);
                        lemma_info_unique(*self, g2, j);
                        lemma_info_unique(pre, g2, j);
                        assert(j != i);
                    }
                    assert(add_post(pre, *self, g@, n@, d));
                }
                return;
            }
            i = i + 1;
        }
        let mut gs = GameSet::new();
        gs.insert(n);
        self.games.push(copy_range(g, 0, g.len()));
        self.names.push(gs);
        self.disks.push(d);
        proof {
            let pre = *old(self);
            let m = pre.games@.len() as int;
            assert(g@.subrange(0, g@.len() as int) =~= g@);
            assert(self.games@[m]@ == g@);
            assert forall|i2: int, j2: int|
                0 <= i2 < j2 < self.games@.len() implies self.games@[i2]@
                != self.games@[j2]@ by {
                if j2 == m {
                    assert(self.games@[i2]@ == pre.games@[i2]@);
                }
            }
            assert(!pre.contains_game(g@));
            lemma_info_unique(*self, g@, m);
            assert forall|g2: Seq<u8>| g2 != g@ implies #[trigger] self.contains_game(g2)
                == pre.contains_game(g2) by {
                if self.contains_game(g2) {
                    let j = choose|j: int|
                        0 <= j < self.games@.len() && self.games@[j]@ == g2;
                    assert(j != m);
                    assert(pre.games@[j]@ == g2);
                }
                if pre.contains_game(g2) {
                    let j = choose|j: int|
                        0 <= j < pre.games@.len() && pre.games@[j]@ == g2;
                    assert(self.games@[j]@ == g2);
                }
            }
            assert forall|g2: Seq<u8>|
                g2 != g@ && pre.contains_game(g2) implies #[trigger] self.names_at(g2)
                == pre.names_at(g2) && self.disk_at(g2) == pre.disk_at(g2) by {
                let j = choose|j: int| 0 <= j < pre.games@.len() && pre.games@[j]@ == g2;
                assert(self.games@[j]@ == g2);
                lemma_info_unique(*self, g2, j);
                lemma_info_unique(pre, g2, j);
            }
            assert(add_post(pre, *self, g@, n@, d));
        }
    }
}

/// What one `add` of entry `(g, n, d)` does to the summary map.
pub open spec fn add_post(
    pre: GameInfoMap,
    post: GameInfoMap,
    g: Seq<u8>,
    n: Seq<u8>,
    d: bool,
) -> bool {
    &&& post.contains_game(g)
    &&& forall|g2: Seq<u8>|
        g2 != g ==> #[trigger] post.contains_game(g2) == pre.contains_game(g2)
    &&& forall|g2: Seq<u8>|
        g2 != g && pre.contains_game(g2) ==> #[trigger] post.names_at(g2) == pre.names_at(g2)
            && post.disk_at(g2) == pre.disk_at(g2)
    &&& forall|x: Seq<u8>|
        #[trigger] post.names_at(g).has(x) == ((pre.contains_game(g) && pre.names_at(g).has(x))
            || x == n)
    &&& post.disk_at(g) == ((pre.contains_game(g) && pre.disk_at(g)) || d)
}

proof fn lemma_info_unique(m: GameInfoMap, g: Seq<u8>, i: int)
    requires
        m.wf(),
        0 <= i < m.games@.len(),
        m.games@[i]@ == g,
    ensures
        m.idx_of(g) == i,
        m.contains_game(g),
{
    assert(m.contains_game(g));
    let j = m.idx_of(g);
    assert(0 <= j < m.games@.len() && m.games@[j]@ == g);
    if j < i {
        assert(m.games@[j]@ != m.games@[i]@);
    } else if i < j {
        assert(m.games@[i]@ != m.games@[j]@);
    }
}

/// Entries among rows before `i`, plus entries before `k` in row `i`.
pub open spec fn entry_before(db: RomDb, i: int, k: int, i2: int, k2: int) -> bool {
    0 <= i2 < db.rows@.len() && 0 <= k2 < db.rows@[i2]@.len() && (i2 < i || (i2 == i && k2 < k))
}

spec fn has_entry_upto(db: RomDb, g: Seq<u8>, n: Seq<u8>, i: int, k: int) -> bool {
    exists|i2: int, k2: int|
        #[trigger] entry_before(db, i, k, i2, k2) && db.rows@[i2]@[k2]@.game == g
            && db.rows@[i2]@[k2]@.name == n
}

spec fn has_game_upto(db: RomDb, g: Seq<u8>, i: int, k: int) -> bool {
    exists|i2: int, k2: int|
        #[trigger] entry_before(db, i, k, i2, k2) && db.rows@[i2]@[k2]@.game == g
}

spec fn has_disk_upto(db: RomDb, g: Seq<u8>, i: int, k: int) -> bool {
    exists|i2: int, k2: int|
        #[trigger] entry_before(db, i, k, i2, k2) && db.rows@[i2]@[k2]@.game == g
            && db.rows@[i2]@[k2]@.is_disk
}

spec fn info_matches_upto(db: RomDb, m: GameInfoMap, i: int, k: int) -> bool {
    &&& forall|g: Seq<u8>| #[trigger] m.contains_game(g) == has_game_upto(db, g, i, k)
    &&& forall|g: Seq<u8>, n: Seq<u8>|
        m.contains_game(g) ==> #[trigger] m.names_at(g).has(n) == has_entry_upto(db, g, n, i, k)
    &&& forall|g: Seq<u8>|
        m.contains_game(g) ==> #[trigger] m.disk_at(g) == has_disk_upto(db, g, i, k)
}

/// Collect each declared game's distinct entry names and disk flag.
fn collect_game_info(db: &RomDb) -> (r: GameInfoMap)
    ensures
        r.wf(),
        forall|g: Seq<u8>| #[trigger] r.contains_game(g) == db_has_game(*db, g),
        forall|g: Seq<u8>, n: Seq<u8>|
            r.contains_game(g) ==> #[trigger] r.names_at(g).has(n) == db_has_entry(*db, g, n),
        forall|g: Seq<u8>| r.contains_game(g) ==> #[trigger] r.disk_at(g) == db_has_disk(*db, g),
{
    let mut m = GameInfoMap::new();
    let mut i: usize = 0;
    let rows: usize = db.rows.len();
    proof {
        assert forall|g: Seq<u8>| #[trigger] m.contains_game(g) == has_game_upto(
            *db,
            g,
            0,
            0,
        ) by {
            if has_game_upto(*db, g, 0, 0) {
                let (i2, k2) = choose|i2: int, k2: int|
                    #[trigger] entry_before(*db, 0, 0, i2, k2) && db.rows@[i2]@[k2]@.game == g;
                assert(false);
            }
        }
    }
    while i < rows
        invariant
            0 <= i <= rows,
            rows == db.rows@.len(),
            m.wf(),
            info_matches_upto(*db, m, i as int, 0),
        decreases rows - i,
    {
        let row_len: usize = db.rows[i].len();
        let mut k: usize = 0;
        while k < row_len
            invariant
                0 <= i < rows,
                0 <= k <= row_len,
                rows == db.rows@.len(),
                row_len == db.rows@[i as int]@.len(),
                m.wf(),
                info_matches_upto(*db, m, i as int, k as int),
            decreases row_len - k,
        {
            let entry = &db.rows[i][k];
            let ghost before = m;
            let ghost eg = db.rows@[i as int]@[k as int]@.game;
            m.add(entry.game.as_slice(), entry.name.as_slice(), entry.is_disk);
            proof {
                assert(entry.game@ == eg);
                assert(add_post(
                    before,
                    m,
                    db.rows@[i as int]@[k as int]@.game,
                    db.rows@[i as int]@[k as int]@.name,
                    db.rows@[i as int]@[k as int]@.is_disk,
                ));
                lemma_add_step(*db, before, m, i as int, k as int);
            }
            k = k + 1;
        }
        proof {
            lemma_upto_row_end(*db, m, i as int, k as int);
        }
        i = i + 1;
    }
    proof {
        assert forall|g: Seq<u8>| #[trigger] m.contains_game(g) == db_has_game(*db, g) by {
            lemma_upto_full(*db, i as int, g);
        }
        assert forall|g: Seq<u8>, n: Seq<u8>|
            m.contains_game(g) implies #[trigger] m.names_at(g).has(n) == db_has_entry(
            *db,
            g,
            n,
        ) by {
            lemma_upto_full(*db, i as int, g);
            lemma_upto_full_entry(*db, i as int, g, n);
        }
        assert forall|g: Seq<u8>| m.contains_game(g) implies #[trigger] m.disk_at(g)
            == db_has_disk(*db, g) by {
            lemma_upto_full_disk(*db, i as int, g);
        }
    }
    m
}

/// After finishing row `i` at `k == len(row i)`, the summary equals the one
/// at the start of row `i + 1`.
proof fn lemma_upto_row_end(db: RomDb, m: GameInfoMap, i: int, k: int)
    requires
        0 <= i < db.rows@.len(),
        k == db.rows@[i]@.len(),
        info_matches_upto(db, m, i, k),
    ensures
        info_matches_upto(db, m, i + 1, 0),
{
    assert forall|i2: int, k2: int| #[trigger] entry_before(db, i, k, i2, k2) == entry_before(
        db,
        i + 1,
        0,
        i2,
        k2,
    ) by {}
    assert forall|g: Seq<u8>| #[trigger] m.contains_game(g) == has_game_upto(
        db,
        g,
        i + 1,
        0,
    ) by {
        if has_game_upto(db, g, i + 1, 0) {
            let (i2, k2) = choose|i2: int, k2: int|
                #[trigger] entry_before(db, i + 1, 0, i2, k2) && db.rows@[i2]@[k2]@.game == g;
            assert(entry_before(db, i, k, i2, k2));
            assert(has_game_upto(db, g, i, k));
        }
        if has_game_upto(db, g, i, k) {
            let (i2, k2) = choose|i2: int, k2: int|
                #[trigger] entry_before(db, i, k, i2, k2) && db.rows@[i2]@[k2]@.game == g;
            assert(entry_before(db, i + 1, 0, i2, k2));
            assert(has_game_upto(db, g, i + 1, 0));
        }
    }
    assert forall|g: Seq<u8>, n: Seq<u8>|
        m.contains_game(g) implies #[trigger] m.names_at(g).has(n) == has_entry_upto(
        db,
        g,
        n,
        i + 1,
        0,
    ) by {
        if has_entry_upto(db, g, n, i + 1, 0) {
            let (i2, k2) = choose|i2: int, k2: int|
                #[trigger] entry_before(db, i + 1, 0, i2, k2) && db.rows@[i2]@[k2]@.game == g
                    && db.rows@[i2]@[k2]@.name == n;
            assert(entry_before(db, i, k, i2, k2));
            assert(has_entry_upto(db, g, n, i, k));
        }
        if has_entry_upto(db, g, n, i, k) {
            let (i2, k2) = choose|i2: int, k2: int|
                #[trigger] entry_before(db, i, k, i2, k2) && db.rows@[i2]@[k2]@.game == g
                    && db.rows@[i2]@[k2]@.name == n;
            assert(entry_before(db, i + 1, 0, i2, k2));
            assert(has_entry_upto(db, g, n, i + 1, 0));
        }
    }
    assert forall|g: Seq<u8>| m.contains_game(g) implies #[trigger] m.disk_at(g)
        == has_disk_upto(db, g, i + 1, 0) by {
        if has_disk_upto(db, g, i + 1, 0) {
            let (i2, k2) = choose|i2: int, k2: int|
                #[trigger] entry_before(db, i + 1, 0, i2, k2) && db.rows@[i2]@[k2]@.game == g
                    && db.rows@[i2]@[k2]@.is_disk;
            assert(entry_before(db, i, k, i2, k2));
            assert(has_disk_upto(db, g, i, k));
        }
        if has_disk_upto(db, g, i, k) {
            let (i2, k2) = choose|i2: int, k2: int|
                #[trigger] entry_before(db, i, k, i2, k2) && db.rows@[i2]@[k2]@.game == g
                    && db.rows@[i2]@[k2]@.is_disk;
            assert(entry_before(db, i + 1, 0, i2, k2));
            assert(has_disk_upto(db, g, i + 1, 0));
        }
    }
}

proof fn lemma_add_post_other(
    pre: GameInfoMap,
    post: GameInfoMap,
    g: Seq<u8>,
    n: Seq<u8>,
    d: bool,
    g2: Seq<u8>,
)
    requires
        add_post(pre, post, g, n, d),
        g2 != g,
        pre.contains_game(g2),
    ensures
        post.names_at(g2) == pre.names_at(g2),
        post.disk_at(g2) == pre.disk_at(g2),
{
    assert(post.names_at(g2) == pre.names_at(g2) && post.disk_at(g2) == pre.disk_at(g2));
}

/// One `add` of entry `(i, k)` advances the summary from `(i, k)` to
/// `(i, k + 1)`.
proof fn lemma_add_step(db: RomDb, before: GameInfoMap, after: GameInfoMap, i: int, k: int)
    requires
        0 <= i < db.rows@.len(),
        0 <= k < db.rows@[i]@.len(),
        info_matches_upto(db, before, i, k),
        add_post(before, after, db.rows@[i]@[k]@.game, db.rows@[i]@[k]@.name, db.rows@[i]@[k]@.is_disk),
    ensures
        info_matches_upto(db, after, i, k + 1),
{
    let eg = db.rows@[i]@[k]@.game;
    assert(add_post(before, after, eg, db.rows@[i]@[k]@.name, db.rows@[i]@[k]@.is_disk));
    assert(entry_before(db, i, k + 1, i, k));
    assert forall|g: Seq<u8>| #[trigger] after.contains_game(g) == has_game_upto(
        db,
        g,
        i,
        k + 1,
    ) by {
        if g == eg {
            assert(has_game_upto(db, g, i, k + 1));
        } else {
            if has_game_upto(db, g, i, k + 1) {
                let (i2, k2) = choose|i2: int, k2: int|
                    #[trigger] entry_before(db, i, k + 1, i2, k2) && db.rows@[i2]@[k2]@.game
                        == g;
                assert(entry_before(db, i, k, i2, k2));
                assert(has_game_upto(db, g, i, k));
            }
            if has_game_upto(db, g, i, k) {
                let (i2, k2) = choose|i2: int, k2: int|
                    #[trigger] entry_before(db, i, k, i2, k2) && db.rows@[i2]@[k2]@.game == g;
                assert(entry_before(db, i, k + 1, i2, k2));
                assert(has_game_upto(db, g, i, k + 1));
            }
        }
    }
    assert forall|g: Seq<u8>, n: Seq<u8>|
        after.contains_game(g) implies #[trigger] after.names_at(g).has(n) == has_entry_upto(
        db,
        g,
        n,
        i,
        k + 1,
    ) by {
        if g == eg {
            if after.names_at(g).has(n) {
                if before.contains_game(g) && before.names_at(g).has(n) {
                    let (i2, k2) = choose|i2: int, k2: int|
                        #[trigger] entry_before(db, i, k, i2, k2) && db.rows@[i2]@[k2]@.game
                            == g && db.rows@[i2]@[k2]@.name == n;
                    assert(entry_before(db, i, k + 1, i2, k2));
                    assert(has_entry_upto(db, g, n, i, k + 1));
                } else {
                    assert(n == db.rows@[i]@[k]@.name);
                    assert(has_entry_upto(db, g, n, i, k + 1));
                }
            }
            if has_entry_upto(db, g, n, i, k + 1) {
                let (i2, k2) = choose|i2: int, k2: int|
                    #[trigger] entry_before(db, i, k + 1, i2, k2) && db.rows@[i2]@[k2]@.game
                        == g && db.rows@[i2]@[k2]@.name == n;
                if i2 == i && k2 == k {
                    assert(after.names_at(g).has(n));
                } else {
                    assert(entry_before(db, i, k, i2, k2));
                    assert(has_entry_upto(db, g, n, i, k));
                    assert(before.contains_game(g)) by {
                        assert(entry_before(db, i, k, i2, k2) && db.rows@[i2]@[k2]@.game == g);
                        assert(has_game_upto(db, g, i, k));
                    }
                    assert(after.names_at(g).has(n));
                }
            }
        } else {
            assert(before.contains_game(g));
            assert(after.names_at(g) == before.names_at(g));
            if has_entry_upto(db, g, n, i, k + 1) {
                let (i2, k2) = choose|i2: int, k2: int|
                    #[trigger] entry_before(db, i, k + 1, i2, k2) && db.rows@[i2]@[k2]@.game
                        == g && db.rows@[i2]@[k2]@.name == n;
                assert((i2, k2) != (i, k));
                assert(entry_before(db, i, k, i2, k2));
                assert(has_entry_upto(db, g, n, i, k));
            }
            if has_entry_upto(db, g, n, i, k) {
                let (i2, k2) = choose|i2: int, k2: int|
                    #[trigger] entry_before(db, i, k, i2, k2) && db.rows@[i2]@[k2]@.game == g
                        && db.rows@[i2]@[k2]@.name == n;
                assert(entry_before(db, i, k + 1, i2, k2));
                assert(has_entry_upto(db, g, n, i, k + 1));
            }
        }
    }
    assert forall|g: Seq<u8>| after.contains_game(g) implies #[trigger] after.disk_at(g)
        == has_disk_upto(db, g, i, k + 1) by {
        if g == eg {
            if after.disk_at(g) {
                if before.contains_game(g) && before.disk_at(g) {
                    let (i2, k2) = choose|i2: int, k2: int|
                        #[trigger] entry_before(db, i, k, i2, k2) && db.rows@[i2]@[k2]@.game
                            == g && db.rows@[i2]@[k2]@.is_disk;
                    assert(entry_before(db, i, k + 1, i2, k2));
                    assert(has_disk_upto(db, g, i, k + 1));
                } else {
                    assert(db.rows@[i]@[k]@.is_disk);
                    assert(has_disk_upto(db, g, i, k + 1));
                }
            }
            if has_disk_upto(db, g, i, k + 1) {
                let (i2, k2) = choose|i2: int, k2: int|
                    #[trigger] entry_before(db, i, k + 1, i2, k2) && db.rows@[i2]@[k2]@.game
                        == g && db.rows@[i2]@[k2]@.is_disk;
                if i2 == i && k2 == k {
                    assert(after.disk_at(g));
                } else {
                    assert(entry_before(db, i, k, i2, k2));
                    assert(has_disk_upto(db, g, i, k));
                    assert(before.contains_game(g)) by {
                        assert(entry_before(db, i, k, i2, k2) && db.rows@[i2]@[k2]@.game == g);
                        assert(has_game_upto(db, g, i, k));
                    }
                    assert(before.disk_at(g));
                    assert(after.disk_at(g));
                }
            }
        } else {
            assert(before.contains_game(g));
            lemma_add_post_other(before, after, eg, db.rows@[i]@[k]@.name,
                db.rows@[i]@[k]@.is_disk, g);
            if has_disk_upto(db, g, i, k + 1) {
                let (i2, k2) = choose|i2: int, k2: int|
                    #[trigger] entry_before(db, i, k + 1, i2, k2) && db.rows@[i2]@[k2]@.game
                        == g && db.rows@[i2]@[k2]@.is_disk;
                assert((i2, k2) != (i, k));
                assert(entry_before(db, i, k, i2, k2));
                assert(has_disk_upto(db, g, i, k));
            }
            if has_disk_upto(db, g, i, k) {
                let (i2, k2) = choose|i2: int, k2: int|
                    #[trigger] entry_before(db, i, k, i2, k2) && db.rows@[i2]@[k2]@.game == g
                        && db.rows@[i2]@[k2]@.is_disk;
                assert(entry_before(db, i, k + 1, i2, k2));
                assert(has_disk_upto(db, g, i, k + 1));
            }
        }
    }
}

proof fn lemma_upto_full(db: RomDb, i: int, g: Seq<u8>)
    requires
        i == db.rows@.len(),
    ensures
        has_game_upto(db, g, i, 0) == db_has_game(db, g),
{
    if has_game_upto(db, g, i, 0) {
        let (i2, k2) = choose|i2: int, k2: int|
            #[trigger] entry_before(db, i, 0, i2, k2) && db.rows@[i2]@[k2]@.game == g;
        assert(db_has_game(db, g));
    }
    if db_has_game(db, g) {
        let (i2, k2) = choose|i2: int, k2: int|
            0 <= i2 < db.rows@.len() && 0 <= k2 < db.rows@[i2]@.len() && db.rows@[i2]@[k2]@.game
                == g;
        assert(entry_before(db, i, 0, i2, k2));
        assert(has_game_upto(db, g, i, 0));
    }
}

proof fn lemma_upto_full_entry(db: RomDb, i: int, g: Seq<u8>, n: Seq<u8>)
    requires
        i == db.rows@.len(),
    ensures
        has_entry_upto(db, g, n, i, 0) == db_has_entry(db, g, n),
{
    if has_entry_upto(db, g, n, i, 0) {
        let (i2, k2) = choose|i2: int, k2: int|
            #[trigger] entry_before(db, i, 0, i2, k2) && db.rows@[i2]@[k2]@.game == g
                && db.rows@[i2]@[k2]@.name == n;
        assert(db_has_entry(db, g, n));
    }
    if db_has_entry(db, g, n) {
        let (i2, k2) = choose|i2: int, k2: int|
            0 <= i2 < db.rows@.len() && 0 <= k2 < db.rows@[i2]@.len() && db.rows@[i2]@[k2]@.game
                == g && db.rows@[i2]@[k2]@.name == n;
        assert(entry_before(db, i, 0, i2, k2));
        assert(has_entry_upto(db, g, n, i, 0));
    }
}

proof fn lemma_upto_full_disk(db: RomDb, i: int, g: Seq<u8>)
    requires
        i == db.rows@.len(),
    ensures
        has_disk_upto(db, g, i, 0) == db_has_disk(db, g),
{
    if has_disk_upto(db, g, i, 0) {
        let (i2, k2) = choose|i2: int, k2: int|
            #[trigger] entry_before(db, i, 0, i2, k2) && db.rows@[i2]@[k2]@.game == g
                && db.rows@[i2]@[k2]@.is_disk;
        assert(db_has_disk(db, g));
    }
    if db_has_disk(db, g) {
        let (i2, k2) = choose|i2: int, k2: int|
            0 <= i2 < db.rows@.len() && 0 <= k2 < db.rows@[i2]@.len() && db.rows@[i2]@[k2]@.game
                == g && db.rows@[i2]@[k2]@.is_disk;
        assert(entry_before(db, i, 0, i2, k2));
        assert(has_disk_upto(db, g, i, 0));
    }
}

/// The games that need their own subdirectory, per `needs_folder_spec`.
pub fn identify_games_needing_folders(rom_db: &RomDb, config: &Config) -> (r: GameSet)
    ensures
        r.wf(),
        forall|g: Seq<u8>|
            #[trigger] r.has(g) == (db_has_game(*rom_db, g) && needs_folder_spec(
                *rom_db,
                g,
                stops_model(config.stop_words@),
            )),
{
    let ghost stops = stops_model(config.stop_words@);
    let info = collect_game_info(rom_db);
    let mut r = GameSet::new();
    let mut j: usize = 0;
    let total: usize = info.games.len();
    while j < total
        invariant
            0 <= j <= total,
            total == info.games@.len(),
            stops == stops_model(config.stop_words@),
            info.wf(),
            forall|g: Seq<u8>| #[trigger] info.contains_game(g) == db_has_game(*rom_db, g),
            forall|g: Seq<u8>, n: Seq<u8>|
                info.contains_game(g) ==> #[trigger] info.names_at(g).has(n) == db_has_entry(
                    *rom_db,
                    g,
                    n,
                ),
            forall|g: Seq<u8>|
                info.contains_game(g) ==> #[trigger] info.disk_at(g) == db_has_disk(*rom_db, g),
            r.wf(),
            forall|g: Seq<u8>|
                #[trigger] r.has(g) == (exists|j2: int|
                    0 <= j2 < j && info.games@[j2]@ == g && db_has_game(*rom_db, g)
                        && needs_folder_spec(*rom_db, g, stops)),
        decreases total - j,
    {
        let game = &info.games[j];
        let gs = &info.names[j];
        proof {
            lemma_info_unique(info, game@, j as int);
        }
        let mut folder: bool = info.disks[j];
        proof {
            if folder {
                assert(info.disk_at(game@) == info.disks@[j as int]);
                assert(db_has_disk(*rom_db, game@));
                assert(needs_folder_spec(*rom_db, game@, stops));
            }
        }
        if !folder && gs.len() >= 2 {
            folder = true;
            proof {
                assert(info.names_at(game@) == *gs);
                assert(gs.items@[0]@ != gs.items@[1]@);
                assert(info.names_at(game@).has(gs.items@[0]@));
                assert(info.names_at(game@).has(gs.items@[1]@));
                assert(db_has_entry(*rom_db, game@, gs.items@[0]@));
                assert(db_has_entry(*rom_db, game@, gs.items@[1]@));
                assert(multi_names(*rom_db, game@));
                assert(needs_folder_spec(*rom_db, game@, stops));
            }
        } else if !folder {
            let name = &gs.items[0];
            proof {
                assert(gs.has(name@));
            }
            if contains_byte(name.as_slice(), 47) || contains_byte(name.as_slice(), 92) {
                folder = true;
                proof {
                    assert(info.names_at(game@) == *gs);
                    assert(info.names_at(game@).has(name@));
                    assert(db_has_entry(*rom_db, game@, name@));
                    if has_byte(name@, 47) {
                        let ix = choose|ix: int| 0 <= ix < name@.len() && name@[ix] == 47;
                        assert(is_sep_byte(name@[ix]));
                    } else {
                        let ix = choose|ix: int| 0 <= ix < name@.len() && name@[ix] == 92;
                        assert(is_sep_byte(name@[ix]));
                    }
                    assert(has_sep(name@));
                    assert(needs_folder_spec(*rom_db, game@, stops));
                }
            } else if !is_rom_name_similar_to_game(game.as_slice(), name.as_slice(), config) {
                folder = true;
                proof {
                    assert(info.names_at(game@) == *gs);
                    assert(info.names_at(game@).has(name@));
                    assert(db_has_entry(*rom_db, game@, name@));
                    assert(!similar_spec(game@, name@, stops));
                    assert(needs_folder_spec(*rom_db, game@, stops));
                }
            }
            proof {
                if !folder {
                    assert(info.names_at(game@) == *gs);
                    assert(gs.items@.len() == 1);
                    assert(!has_sep(name@));
                    assert forall|n: Seq<u8>|
                        #[trigger] db_has_entry(*rom_db, game@, n) implies !(has_sep(n)
                        || !similar_spec(game@, n, stops)) by {
                        assert(info.names_at(game@).has(n));
                        assert(gs.has(n));
                        let ix = choose|ix: int|
                            0 <= ix < gs.items@.len() && gs.items@[ix]@ == n;
                        assert(ix == 0);
                        assert(n == name@);
                    }
                    assert(info.disk_at(game@) == db_has_disk(*rom_db, game@));
                    assert(!db_has_disk(*rom_db, game@));
                    assert forall|n1: Seq<u8>, n2: Seq<u8>|
                        #[trigger] db_has_entry(*rom_db, game@, n1) && #[trigger] db_has_entry(
                            *rom_db,
                            game@,
                            n2,
                        ) implies n1 == n2 by {
                        assert(info.names_at(game@).has(n1));
                        assert(info.names_at(game@).has(n2));
                        assert(gs.has(n1));
                        assert(gs.has(n2));
                        let x1 = choose|x: int| 0 <= x < gs.items@.len() && gs.items@[x]@ == n1;
                        let x2 = choose|x: int| 0 <= x < gs.items@.len() && gs.items@[x]@ == n2;
                        assert(x1 == 0 && x2 == 0);
                    }
                    assert(!needs_folder_spec(*rom_db, game@, stops));
                }
            }
        }
        if folder {
            proof {
                assert(info.contains_game(game@));
                assert(db_has_game(*rom_db, game@));
                assert(needs_folder_spec(*rom_db, game@, stops));
            }
            r.insert(game.as_slice());
        } else {
            proof {
                assert forall|g: Seq<u8>| #[trigger] r.has(g) == (exists|j2: int|
                    0 <= j2 < j + 1 && info.games@[j2]@ == g && db_has_game(*rom_db, g)
                        && needs_folder_spec(*rom_db, g, stops)) by {
                    if r.has(g) {
                        let j2 = choose|j2: int|
                            0 <= j2 < j && info.games@[j2]@ == g && db_has_game(*rom_db, g)
                                && needs_folder_spec(*rom_db, g, stops);
                        assert(0 <= j2 < j + 1 && info.games@[j2]@ == g);
                    }
                    if exists|j2: int|
                        0 <= j2 < j + 1 && info.games@[j2]@ == g && db_has_game(*rom_db, g)
                            && needs_folder_spec(*rom_db, g, stops) {
                        let j2 = choose|j2: int|
                            0 <= j2 < j + 1 && info.games@[j2]@ == g && db_has_game(*rom_db, g)
                                && needs_folder_spec(*rom_db, g, stops);
                        if j2 == j {
                            assert(g == game@);
                            assert(false);
                        }
                    }
                }
            }
        }
        proof {
            if folder {
                assert forall|g: Seq<u8>| #[trigger] r.has(g) == (exists|j2: int|
                    0 <= j2 < j + 1 && info.games@[j2]@ == g && db_has_game(*rom_db, g)
                        && needs_folder_spec(*rom_db, g, stops)) by {
                    if r.has(g) {
                        if g == game@ {
                            assert(0 <= j < j + 1 && info.games@[j as int]@ == g);
                        } else {
                            let j2 = choose|j2: int|
                                0 <= j2 < j && info.games@[j2]@ == g && db_has_game(*rom_db, g)
                                    && needs_folder_spec(*rom_db, g, stops);
                            assert(0 <= j2 < j + 1 && info.games@[j2]@ == g);
                        }
                    }
                    if exists|j2: int|
                        0 <= j2 < j + 1 && info.games@[j2]@ == g && db_has_game(*rom_db, g)
                            && needs_folder_spec(*rom_db, g, stops) {
                        let j2 = choose|j2: int|
                            0 <= j2 < j + 1 && info.games@[j2]@ == g && db_has_game(*rom_db, g)
                                && needs_folder_spec(*rom_db, g, stops);
                        if j2 == j {
                            assert(r.has(g));
                        }
                    }
                }
            }
        }
        j = j + 1;
    }
    proof {
        assert forall|g: Seq<u8>| #[trigger] r.has(g) == (db_has_game(*rom_db, g)
            && needs_folder_spec(*rom_db, g, stops)) by {
            if db_has_game(*rom_db, g) && needs_folder_spec(*rom_db, g, stops) {
                assert(info.contains_game(g));
                let j2 = choose|j2: int| 0 <= j2 < info.games@.len() && info.games@[j2]@ == g;
            }
        }
    }
    r
}

} // verus!
