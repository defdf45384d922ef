//! The provenance database file: a JSON object with game names as keys,
//! sorted, each mapping digest strings to placed names, sorted by placed
//! name. Rendering is exact, including string escaping.

use vstd::prelude::*;
use crate::bytes::copy_bytes;
use crate::digest::hex_digit;
use crate::report::{lex_le, lemma_lex_trans, lex_leq};
use crate::store::{row_has_game, Store};

verus! {

// ---------------------------------------------------------------------------
// JSON string escaping
// ---------------------------------------------------------------------------
/// Escape of one byte inside a JSON string literal.
pub open spec fn esc_byte(b: u8) -> Seq<u8> {
    if b == 34 {
        seq![92u8, 34u8]
    } else if b == 92 {
        seq![92u8, 92u8]
    } else if b < 32 {
        seq![92u8, 117u8, 48u8, 48u8, hex_digit(b / 16), hex_digit(b % 16)]
    } else {
        seq![b]
    }
}

pub open spec fn json_escape(s: Seq<u8>) -> Seq<u8>
    decreases s.len(),
{
    if s.len() == 0 {
        Seq::<u8>::empty()
    } else {
        json_escape(s.drop_last()) + esc_byte(s.last())
    }
}

/// A JSON string literal: quoted, escaped.
pub open spec fn json_string(s: Seq<u8>) -> Seq<u8> {
    seq![34u8] + json_escape(s) + seq![34u8]
}

fn push_json_string(out: &mut Vec<u8>, s: &[u8])
    ensures
        final(out)@ == old(out)@ + json_string(s@),
{
    out.push(34);
    let mut i: usize = 0;
    proof {
        assert(out@ =~= old(out)@ + seq![34u8] + json_escape(s@.take(0)));
    }
    while i < s.len()
        invariant
            0 <= i <= s@.len(),
            out@ == old(out)@ + seq![34u8] + json_escape(s@.take(i as int)),
        decreases s@.len() - i,
    {
        let b = s[i];
        if b == 34 {
            out.push(92);
            out.push(34);
        } else if b == 92 {
            out.push(92);
            out.push(92);
        } else if b < 32 {
            out.push(92);
            out.push(117);
            out.push(48);
            out.push(48);
            out.push(if b / 16 < 10 {
                48 + b / 16
            } else {
                87 + b / 16
            });
            out.push(if b % 16 < 10 {
                48 + b % 16
            } else {
                87 + b % 16
            });
        } else {
            out.push(b);
        }
        proof {
            assert(s@.take(i + 1 as int).drop_last() =~= s@.take(i as int));
            assert(s@.take(i + 1 as int).last() == s@[i as int]);
            assert(out@ =~= old(out)@ + seq![34u8] + json_escape(s@.take(i + 1 as int)));
        }
        i = i + 1;
    }
    out.push(34);
    proof {
        assert(s@.take(i as int) =~= s@);
        assert(out@ =~= old(out)@ + json_string(s@));
    }
}

// ---------------------------------------------------------------------------
// Pairs of one game
// ---------------------------------------------------------------------------
/// The placed name of the last pair of game `g` in a provenance row.
pub open spec fn last_name_for(row: Seq<(Seq<u8>, Seq<u8>)>, g: Seq<u8>) -> Option<Seq<u8>>
    decreases row.len(),
{
    if row.len() == 0 {
        None
    } else if row.last().0 == g {
        Some(row.last().1)
    } else {
        last_name_for(row.drop_last(), g)
    }
}

proof fn lemma_last_name_some(row: Seq<(Seq<u8>, Seq<u8>)>, g: Seq<u8>)
    ensures
        (last_name_for(row, g) is Some) == row_has_game(row, g),
    decreases row.len(),
{
    if row.len() > 0 {
        lemma_last_name_some(row.drop_last(), g);
        if row.last().0 == g {
            assert(row_has_game(row, g));
        } else {
            if row_has_game(row, g) {
                let k = choose|k: int| 0 <= k < row.len() && row[k].0 == g;
                assert(row.drop_last()[k] == row[k]);
                assert(row_has_game(row.drop_last(), g));
            }
            if row_has_game(row.drop_last(), g) {
                let k = choose|k: int| 0 <= k < row.drop_last().len() && row.drop_last()[k].0
                    == g;
                assert(row[k].0 == g);
            }
        }
    }
}

fn last_name_in_row(row: &Vec<(Vec<u8>, Vec<u8>)>, g: &[u8]) -> (r: Option<Vec<u8>>)
    ensures
        match r {
            Some(n) => last_name_for(crate::store::prow_model(row@), g@) == Some(n@),
            None => last_name_for(crate::store::prow_model(row@), g@) is None,
        },
{
    let ghost m = crate::store::prow_model(row@);
    let mut i: usize = row.len();
    proof {
        assert(m.take(i as int) =~= m);
    }
    while i > 0
        invariant
            0 <= i <= row@.len(),
            m == crate::store::prow_model(row@),
            last_name_for(m, g@) == last_name_for(m.take(i as int), g@),
        decreases i,
    {
        i = i - 1;
        proof {
            assert(m.take(i + 1 as int).drop_last() =~= m.take(i as int));
            assert(m.take(i + 1 as int).last() == m[i as int]);
            assert(m[i as int].0 == row@[i as int].0@);
        }
        if crate::bytes::bytes_eq(row[i].0.as_slice(), g) {
            return Some(copy_bytes(row[i].1.as_slice()));
        }
    }
    proof {
        assert(m.take(0) =~= Seq::<(Seq<u8>, Seq<u8>)>::empty());
    }
    None
}

/// All (digest, placed-name) pairs recorded for game `g`: one pair per
/// digest whose row names `g`, carrying the last name recorded there.
pub fn pairs_for_game(store: &Store, g: &[u8]) -> (r: Vec<(Vec<u8>, Vec<u8>)>)
    requires
        store.wf(),
    ensures
        forall|a: int, b: int| 0 <= a < b < r@.len() ==> r@[a].0@ != r@[b].0@,
        forall|a: int|
            0 <= a < r@.len() ==> store.contains_hash(#[trigger] r@[a].0@) && last_name_for(
                store.lookup(r@[a].0@),
                g@,
            ) == Some(r@[a].1@),
        forall|h: Seq<u8>|
            store.contains_hash(h) && row_has_game(#[trigger] store.lookup(h), g@)
                ==> exists|a: int| 0 <= a < r@.len() && r@[a].0@ == h,
{
    let mut r: Vec<(Vec<u8>, Vec<u8>)> = Vec::new();
    let mut i: usize = 0;
    let rows: usize = store.hashes.len();
    while i < rows
        invariant
            0 <= i <= rows,
            rows == store.hashes@.len(),
            store.wf(),
            forall|a: int, b: int| 0 <= a < b < r@.len() ==> r@[a].0@ != r@[b].0@,
            forall|a: int|
                0 <= a < r@.len() ==> store.contains_hash(#[trigger] r@[a].0@)
                    && last_name_for(store.lookup(r@[a].0@), g@) == Some(r@[a].1@),
            forall|a: int|
                0 <= a < r@.len() ==> exists|j: int|
                    0 <= j < i && #[trigger] r@[a].0@ == store.hashes@[j]@,
            forall|j: int|
                0 <= j < i && row_has_game(
                    #[trigger] store.lookup(store.hashes@[j]@),
                    g@,
                ) ==> exists|a: int| 0 <= a < r@.len() && r@[a].0@ == store.hashes@[j]@,
        decreases rows - i,
    {
        let ghost h_i = store.hashes@[i as int]@;
        proof {
            crate::store::lemma_store_index(*store, h_i, i as int);
            lemma_last_name_some(store.lookup(h_i), g@);
        }
        let ghost r_pre = r@;
        match last_name_in_row(&store.rows[i], g) {
            Some(name) => {
                let h = copy_bytes(store.hashes[i].as_slice());
                r.push((h, name));
                proof {
                    let w = r@.len() - 1;
                    assert(r@[w].0@ == h_i);
                    assert forall|a: int, b: int|
                        0 <= a < b < r@.len() implies r@[a].0@ != r@[b].0@ by {
                        if b == w {
                            let j = choose|j: int|
                                0 <= j < i && #[trigger] r_pre[a].0@ == store.hashes@[j]@;
                            assert(store.hashes@[j]@ != store.hashes@[i as int]@);
                            assert(r@[a] == r_pre[a]);
                        } else {
                            assert(r@[a] == r_pre[a] && r@[b] == r_pre[b]);
                        }
                    }
                    assert forall|a: int|
                        0 <= a < r@.len() implies exists|j: int|
                        0 <= j < i + 1 && #[trigger] r@[a].0@ == store.hashes@[j]@ by {
                        if a < w {
                            assert(r@[a] == r_pre[a]);
                            let j = choose|j: int|
                                0 <= j < i && #[trigger] r_pre[a].0@ == store.hashes@[j]@;
                        } else {
                            assert(r@[w].0@ == store.hashes@[i as int]@);
                        }
                    }
                    assert forall|j: int|
                        0 <= j < i + 1 && row_has_game(
                            #[trigger] store.lookup(store.hashes@[j]@),
                            g@,
                        ) implies exists|a: int|
                        0 <= a < r@.len() && r@[a].0@ == store.hashes@[j]@ by {
                        if j < i {
                            let a = choose|a: int|
                                0 <= a < r_pre.len() && r_pre[a].0@ == store.hashes@[j]@;
                            assert(r@[a].0@ == store.hashes@[j]@);
                        } else {
                            assert(r@[w].0@ == store.hashes@[j]@);
                        }
                    }
                }
            },
            None => {
                proof {
                    assert(!row_has_game(store.lookup(h_i), g@));
                    assert forall|j: int|
                        0 <= j < i + 1 && row_has_game(
                            #[trigger] store.lookup(store.hashes@[j]@),
                            g@,
                        ) implies exists|a: int|
                        0 <= a < r@.len() && r@[a].0@ == store.hashes@[j]@ by {
                        if j < i {
                            let a = choose|a: int|
                                0 <= a < r_pre.len() && r_pre[a].0@ == store.hashes@[j]@;
                        } else {
                            assert(store.lookup(store.hashes@[j]@) == store.lookup(h_i));
                        }
                    }
                }
            },
        }
        i = i + 1;
    }
    proof {
        assert forall|h: Seq<u8>|
            store.contains_hash(h) && row_has_game(
                #[trigger] store.lookup(h),
                g@,
            ) implies exists|a: int| 0 <= a < r@.len() && r@[a].0@ == h by {
            let j = choose|j: int| 0 <= j < store.hashes@.len() && store.hashes@[j]@ == h;
            assert(row_has_game(store.lookup(store.hashes@[j]@), g@));
        }
    }
    r
}

// ---------------------------------------------------------------------------
// Sorting pairs by placed name, digest as tie-break
// ---------------------------------------------------------------------------
/// Order on (digest, name) pairs: by name, then by digest.
pub open spec fn pair_le(p: (Seq<u8>, Seq<u8>), q: (Seq<u8>, Seq<u8>)) -> bool {
    if p.1 == q.1 {
        lex_le(p.0, q.0)
    } else {
        lex_le(p.1, q.1) && p.1 != q.1
    }
}

proof fn lemma_lex_antisym(a: Seq<u8>, b: Seq<u8>)
    requires
        lex_le(a, b),
        lex_le(b, a),
    ensures
        a == b,
{
    if exists|i: int|
        0 <= i < a.len() && i < b.len() && a[i] < b[i] && (forall|j: int|
            0 <= j < i ==> a[j] == #[trigger] b[j]) {
        let i1 = choose|i: int|
            0 <= i < a.len() && i < b.len() && a[i] < b[i] && (forall|j: int|
                0 <= j < i ==> a[j] == #[trigger] b[j]);
        if exists|i: int|
            0 <= i < b.len() && i < a.len() && b[i] < a[i] && (forall|j: int|
                0 <= j < i ==> b[j] == #[trigger] a[j]) {
            let i2 = choose|i: int|
                0 <= i < b.len() && i < a.len() && b[i] < a[i] && (forall|j: int|
                    0 <= j < i ==> b[j] == #[trigger] a[j]);
            if i1 < i2 {
                assert(a[i1] == b[i1]);
            } else if i2 < i1 {
                assert(a[i2] == b[i2]);
            }
            assert(false);
        } else {
            assert(b.len() <= a.len() && (forall|j: int|
                0 <= j < b.len() ==> b[j] == #[trigger] a[j]));
            assert(a[i1] == b[i1]);
            assert(false);
        }
    } else {
        assert(a.len() <= b.len() && (forall|j: int| 0 <= j < a.len() ==> a[j] == #[trigger] b[j]));
        if exists|i: int|
            0 <= i < b.len() && i < a.len() && b[i] < a[i] && (forall|j: int|
                0 <= j < i ==> b[j] == #[trigger] a[j]) {
            let i2 = choose|i: int|
                0 <= i < b.len() && i < a.len() && b[i] < a[i] && (forall|j: int|
                    0 <= j < i ==> b[j] == #[trigger] a[j]);
            assert(a[i2] == b[i2]);
            assert(false);
        } else {
            assert(b.len() <= a.len());
            assert(a =~= b);
        }
    }
}

proof fn lemma_pair_trans(p: (Seq<u8>, Seq<u8>), q: (Seq<u8>, Seq<u8>), s: (Seq<u8>, Seq<u8>))
    requires
        pair_le(p, q),
        pair_le(q, s),
    ensures
        pair_le(p, s),
{
    if p.1 == q.1 {
        if q.1 == s.1 {
            lemma_lex_trans(p.0, q.0, s.0);
        }
    } else {
        if q.1 == s.1 {
        } else {
            lemma_lex_trans(p.1, q.1, s.1);
            if p.1 == s.1 {
                lemma_lex_antisym(q.1, s.1);
            }
        }
    }
}

/// Decide the pair order; when the answer is no, the reverse holds.
fn pair_leq(p: &(Vec<u8>, Vec<u8>), q: &(Vec<u8>, Vec<u8>)) -> (r: bool)
    ensures
        r == pair_le((p.0@, p.1@), (q.0@, q.1@)),
        !r ==> pair_le((q.0@, q.1@), (p.0@, p.1@)),
{
    if crate::bytes::bytes_eq(p.1.as_slice(), q.1.as_slice()) {
        lex_leq(p.0.as_slice(), q.0.as_slice())
    } else {
        let le = lex_leq(p.1.as_slice(), q.1.as_slice());
        proof {
            if !le {
                assert(pair_le((q.0@, q.1@), (p.0@, p.1@)));
            }
        }
        le
    }
}

/// Membership of a (digest, name) pair among the views of a pair list.
pub open spec fn seq_has_pair(l: Seq<(Vec<u8>, Vec<u8>)>, x: (Seq<u8>, Seq<u8>)) -> bool {
    exists|i: int| 0 <= i < l.len() && (l[i].0@, l[i].1@) == x
}

/// Sort pairs with distinct digests by placed name, digest as tie-break.
pub fn sort_pairs(input: &Vec<(Vec<u8>, Vec<u8>)>) -> (r: Vec<(Vec<u8>, Vec<u8>)>)
    requires
        forall|a: int, b: int| 0 <= a < b < input@.len() ==> input@[a].0@ != input@[b].0@,
    ensures
        r@.len() == input@.len(),
        forall|a: int, b: int|
            #![trigger r@[a], r@[b]]
            0 <= a < b < r@.len() ==> pair_le((r@[a].0@, r@[a].1@), (r@[b].0@, r@[b].1@)),
        forall|a: int|
            #![trigger r@[a]]
            0 <= a < r@.len() ==> seq_has_pair(input@, (r@[a].0@, r@[a].1@)),
        forall|b: int|
            #![trigger input@[b]]
            0 <= b < input@.len() ==> seq_has_pair(r@, (input@[b].0@, input@[b].1@)),
{
    let ghost orig = input@;
    let mut src: Vec<(Vec<u8>, Vec<u8>)> = Vec::new();
    let mut i: usize = 0;
    while i < input.len()
        invariant
            0 <= i <= input@.len(),
            orig == input@,
            src@.len() == i,
            forall|a: int|
                0 <= a < i ==> #[trigger] src@[a].0@ == orig[a].0@ && src@[a].1@ == orig[a].1@,
        decreases input@.len() - i,
    {
        let p = &input[i];
        src.push((copy_bytes(p.0.as_slice()), copy_bytes(p.1.as_slice())));
        i = i + 1;
    }
    let mut out: Vec<(Vec<u8>, Vec<u8>)> = Vec::new();
    proof {
        assert forall|b: int| #![trigger src@[b]] 0 <= b < src@.len() implies seq_has_pair(
            orig,
            (src@[b].0@, src@[b].1@),
        ) by {
            assert((orig[b].0@, orig[b].1@) == (src@[b].0@, src@[b].1@));
        }
        assert forall|c: int| #![trigger orig[c]] 0 <= c < orig.len() implies (seq_has_pair(
            out@,
            (orig[c].0@, orig[c].1@),
        ) || seq_has_pair(src@, (orig[c].0@, orig[c].1@))) by {
            assert((src@[c].0@, src@[c].1@) == (orig[c].0@, orig[c].1@));
        }
    }
    while src.len() > 0
        invariant
            orig == input@,
            out@.len() + src@.len() == orig.len(),
            forall|a: int, b: int|
                #![trigger out@[a], out@[b]]
                0 <= a < b < out@.len() ==> pair_le(
                    (out@[a].0@, out@[a].1@),
                    (out@[b].0@, out@[b].1@),
                ),
            forall|a: int, b: int|
                #![trigger out@[a], src@[b]]
                0 <= a < out@.len() && 0 <= b < src@.len() ==> pair_le(
                    (out@[a].0@, out@[a].1@),
                    (src@[b].0@, src@[b].1@),
                ),
            forall|a: int|
                #![trigger out@[a]]
                0 <= a < out@.len() ==> seq_has_pair(orig, (out@[a].0@, out@[a].1@)),
            forall|b: int|
                #![trigger src@[b]]
                0 <= b < src@.len() ==> seq_has_pair(orig, (src@[b].0@, src@[b].1@)),
            forall|c: int|
                #![trigger orig[c]]
                0 <= c < orig.len() ==> (seq_has_pair(out@, (orig[c].0@, orig[c].1@))
                    || seq_has_pair(src@, (orig[c].0@, orig[c].1@))),
        decreases src@.len(),
    {
        let mut best: usize = 0;
        let mut c: usize = 1;
        while c < src.len()
            invariant
                0 <= best < src@.len(),
                1 <= c <= src@.len(),
                forall|d: int|
                    0 <= d < c ==> pair_le(
                        (src@[best as int].0@, src@[best as int].1@),
                        (#[trigger] src@[d].0@, src@[d].1@),
                    ),
            decreases src@.len() - c,
        {
            if !pair_leq(&src[best], &src[c]) {
                proof {
                    let old_best = best as int;
                    assert(pair_le(
                        (src@[c as int].0@, src@[c as int].1@),
                        (src@[old_best].0@, src@[old_best].1@),
                    ));
                    assert forall|d: int|
                        0 <= d < c + 1 implies pair_le(
                        (src@[c as int].0@, src@[c as int].1@),
                        (#[trigger] src@[d].0@, src@[d].1@),
                    ) by {
                        if d < c {
                            lemma_pair_trans(
                                (src@[c as int].0@, src@[c as int].1@),
                                (src@[old_best].0@, src@[old_best].1@),
                                (src@[d].0@, src@[d].1@),
                            );
                        }
                    }
                }
                best = c;
            }
            c = c + 1;
        }
        let ghost src_pre = src@;
        let m = src.remove(best);
        proof {
            assert(src@ =~= src_pre.remove(best as int));
            assert(m == src_pre[best as int]);
        }
        let ghost out_pre = out@;
        out.push(m);
        proof {
            let w = out@.len() - 1;
            assert(out@[w] == src_pre[best as int]);
            assert forall|a: int, b: int|
                #![trigger out@[a], out@[b]]
                0 <= a < b < out@.len() implies pair_le(
                (out@[a].0@, out@[a].1@),
                (out@[b].0@, out@[b].1@),
            ) by {
                if b == w {
                    assert(out@[a] == out_pre[a]);
                } else {
                    assert(out@[a] == out_pre[a] && out@[b] == out_pre[b]);
                }
            }
            assert forall|a: int, b: int|
                #![trigger out@[a], src@[b]]
                0 <= a < out@.len() && 0 <= b < src@.len() implies pair_le(
                (out@[a].0@, out@[a].1@),
                (src@[b].0@, src@[b].1@),
            ) by {
                let b_orig: int = if b < best {
                    b
                } else {
                    b + 1
                };
                assert(src@[b] == src_pre[b_orig]);
                if a == w {
                } else {
                    assert(out@[a] == out_pre[a]);
                }
            }
            assert forall|a: int| #![trigger out@[a]] 0 <= a < out@.len() implies seq_has_pair(
                orig,
                (out@[a].0@, out@[a].1@),
            ) by {
                if a < w {
                    assert(out@[a] == out_pre[a]);
                } else {
                    assert(out@[a] == src_pre[best as int]);
                }
            }
            assert forall|b: int| #![trigger src@[b]] 0 <= b < src@.len() implies seq_has_pair(
                orig,
                (src@[b].0@, src@[b].1@),
            ) by {
                let b_orig: int = if b < best {
                    b
                } else {
                    b + 1
                };
                assert(src@[b] == src_pre[b_orig]);
            }
            assert forall|c2: int| #![trigger orig[c2]] 0 <= c2 < orig.len() implies (
            seq_has_pair(out@, (orig[c2].0@, orig[c2].1@)) || seq_has_pair(
                src@,
                (orig[c2].0@, orig[c2].1@),
            )) by {
                if seq_has_pair(out_pre, (orig[c2].0@, orig[c2].1@)) {
                    let a = choose|a: int|
                        0 <= a < out_pre.len() && (out_pre[a].0@, out_pre[a].1@) == (
                        orig[c2].0@,
                        orig[c2].1@,
                        );
                    assert((out@[a].0@, out@[a].1@) == (orig[c2].0@, orig[c2].1@));
                } else {
                    assert(seq_has_pair(src_pre, (orig[c2].0@, orig[c2].1@)));
                    let b = choose|b: int|
                        0 <= b < src_pre.len() && (src_pre[b].0@, src_pre[b].1@) == (
                        orig[c2].0@,
                        orig[c2].1@,
                        );
                    if b == best {
                        assert((out@[w].0@, out@[w].1@) == (orig[c2].0@, orig[c2].1@));
                    } else if b < best {
                        assert((src@[b].0@, src@[b].1@) == (orig[c2].0@, orig[c2].1@));
                    } else {
                        assert((src@[b - 1].0@, src@[b - 1].1@) == (orig[c2].0@, orig[c2].1@));
                    }
                }
            }
        }
    }
    proof {
        assert forall|a: int| #![trigger out@[a]] 0 <= a < out@.len() implies seq_has_pair(
            input@,
            (out@[a].0@, out@[a].1@),
        ) by {
            assert(seq_has_pair(orig, (out@[a].0@, out@[a].1@)));
        }
        assert forall|b: int| #![trigger input@[b]] 0 <= b < input@.len() implies seq_has_pair(
            out@,
            (input@[b].0@, input@[b].1@),
        ) by {
            assert(orig[b] == input@[b]);
            assert(seq_has_pair(out@, (orig[b].0@, orig[b].1@)) || seq_has_pair(
                src@,
                (orig[b].0@, orig[b].1@),
            ));
        }
    }
    out
}

// ---------------------------------------------------------------------------
// Rendering
// ---------------------------------------------------------------------------
/// One `"digest": "name"` line at entry indentation.
pub open spec fn entry_text(p: (Seq<u8>, Seq<u8>)) -> Seq<u8> {
    seq![32u8, 32u8, 32u8, 32u8] + json_string(p.0) + seq![58u8, 32u8] + json_string(p.1)
}

/// Entry lines joined by comma-newline.
pub open spec fn entries_text(ps: Seq<(Seq<u8>, Seq<u8>)>) -> Seq<u8>
    decreases ps.len(),
{
    if ps.len() == 0 {
        Seq::<u8>::empty()
    } else if ps.len() == 1 {
        entry_text(ps[0])
    } else {
        entries_text(ps.drop_last()) + seq![44u8, 10u8] + entry_text(ps.last())
    }
}

/// One game's object block.
pub open spec fn game_text(g: Seq<u8>, ps: Seq<(Seq<u8>, Seq<u8>)>) -> Seq<u8> {
    seq![32u8, 32u8] + json_string(g) + seq![58u8, 32u8, 123u8, 10u8] + entries_text(ps) + seq![
        10u8,
        32u8,
        32u8,
        125u8,
    ]
}

pub open spec fn rows_model(rows: Seq<(Vec<u8>, Vec<(Vec<u8>, Vec<u8>)>)>) -> Seq<
    (Seq<u8>, Seq<(Seq<u8>, Seq<u8>)>),
> {
    rows.map_values(
        |r: (Vec<u8>, Vec<(Vec<u8>, Vec<u8>)>)| (r.0@, crate::store::prow_model(r.1@)),
    )
}

pub open spec fn games_text(rs: Seq<(Seq<u8>, Seq<(Seq<u8>, Seq<u8>)>)>) -> Seq<u8>
    decreases rs.len(),
{
    if rs.len() == 0 {
        Seq::<u8>::empty()
    } else if rs.len() == 1 {
        game_text(rs[0].0, rs[0].1)
    } else {
        games_text(rs.drop_last()) + seq![44u8, 10u8] + game_text(rs.last().0, rs.last().1)
    }
}

/// The whole database file: an empty object, or the game blocks in order.
pub open spec fn store_json_spec(rs: Seq<(Seq<u8>, Seq<(Seq<u8>, Seq<u8>)>)>) -> Seq<u8> {
    if rs.len() == 0 {
        seq![123u8, 125u8]
    } else {
        seq![123u8, 10u8] + games_text(rs) + seq![10u8, 125u8]
    }
}

fn push_entry(out: &mut Vec<u8>, p: &(Vec<u8>, Vec<u8>))
    ensures
        final(out)@ == old(out)@ + entry_text((p.0@, p.1@)),
{
    out.push(32);
    out.push(32);
    out.push(32);
    out.push(32);
    push_json_string(out, p.0.as_slice());
    out.push(58);
    out.push(32);
    push_json_string(out, p.1.as_slice());
    proof {
        assert(out@ =~= old(out)@ + entry_text((p.0@, p.1@)));
    }
}

/// Render the sorted grouping as the database file's exact bytes.
#[verifier::rlimit(80)]
pub fn render_store_json(rows: &Vec<(Vec<u8>, Vec<(Vec<u8>, Vec<u8>)>)>) -> (r: Vec<u8>)
    ensures
        r@ == store_json_spec(rows_model(rows@)),
{
    let ghost rm = rows_model(rows@);
    if rows.len() == 0 {
        let mut out: Vec<u8> = Vec::new();
        out.push(123);
        out.push(125);
        proof {
            assert(out@ =~= store_json_spec(rm));
        }
        return out;
    }
    let mut out: Vec<u8> = Vec::new();
    out.push(123);
    out.push(10);
    let mut i: usize = 0;
    proof {
        assert(rm.len() == rows@.len());
    }
    while i < rows.len()
        invariant
            0 <= i <= rows@.len(),
            rows@.len() > 0,
            rm == rows_model(rows@),
            rm.len() == rows@.len(),
            i == 0 ==> out@ == seq![123u8, 10u8],
            i > 0 ==> out@ == seq![123u8, 10u8] + games_text(rm.take(i as int)),
        decreases rows@.len() - i,
    {
        if i > 0 {
            out.push(44);
            out.push(10);
        }
        let row = &rows[i];
        proof {
            assert(rm[i as int] == (row.0@, crate::store::prow_model(row.1@)));
        }
        out.push(32);
        out.push(32);
        push_json_string(&mut out, row.0.as_slice());
        out.push(58);
        out.push(32);
        out.push(123);
        out.push(10);
        let ghost block_start = out@;
        let ghost pm = crate::store::prow_model(row.1@);
        let mut k: usize = 0;
        proof {
            assert(pm.len() == row.1@.len());
        }
        while k < row.1.len()
            invariant
                0 <= k <= row.1@.len(),
                pm == crate::store::prow_model(row.1@),
                pm.len() == row.1@.len(),
                k == 0 ==> out@ == block_start,
                k > 0 ==> out@ == block_start + entries_text(pm.take(k as int)),
            decreases row.1@.len() - k,
        {
            if k > 0 {
                out.push(44);
                out.push(10);
            }
            let p = &row.1[k];
            push_entry(&mut out, p);
            proof {
                assert(pm[k as int] == (p.0@, p.1@));
                assert(pm.take(k + 1 as int).drop_last() =~= pm.take(k as int));
                assert(pm.take(k + 1 as int).last() == pm[k as int]);
                if k == 0 {
                    assert(pm.take(1)[0] == pm[0]);
                    assert(entries_text(pm.take(1)) == entry_text(pm[0]));
                    assert(out@ =~= block_start + entries_text(pm.take(1)));
                } else {
                    assert(out@ =~= block_start + entries_text(pm.take(k + 1 as int)));
                }
            }
            k = k + 1;
        }
        out.push(10);
        out.push(32);
        out.push(32);
        out.push(125);
        proof {
            assert(pm.take(k as int) =~= pm);
            assert(rm.take(i + 1 as int).drop_last() =~= rm.take(i as int));
            assert(rm.take(i + 1 as int).last() == rm[i as int]);
            if k == 0 {
                assert(entries_text(pm) =~= Seq::<u8>::empty());
                assert(out@ =~= block_start + entries_text(pm) + seq![10u8, 32u8, 32u8, 125u8]);
            }
            if i == 0 {
                assert(rm.take(1)[0] == rm[0]);
                assert(games_text(rm.take(1)) == game_text(rm[0].0, rm[0].1));
                assert(out@ =~= seq![123u8, 10u8] + games_text(rm.take(1)));
            } else {
                assert(out@ =~= seq![123u8, 10u8] + games_text(rm.take(i + 1 as int)));
            }
        }
        i = i + 1;
    }
    out.push(10);
    out.push(125);
    proof {
        assert(rm.take(i as int) =~= rm);
        assert(out@ =~= store_json_spec(rm));
    }
    out
}

} // verus!
