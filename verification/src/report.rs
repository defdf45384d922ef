//! Report rendering: an ordering on byte strings, a verified sort, and the
//! exact text of the per-run reports.

use vstd::prelude::*;
use crate::bytes::{copy_bytes, dec_rep, push_all, u64_to_dec};

verus! {

// ---------------------------------------------------------------------------
// Lexicographic order and sorting
// ---------------------------------------------------------------------------
/// Byte-wise lexicographic order: a smaller byte at the first difference, or
/// a proper prefix.
pub open spec fn lex_le(a: Seq<u8>, b: Seq<u8>) -> bool {
    ||| (exists|i: int|
        0 <= i < a.len() && i < b.len() && a[i] < b[i] && (forall|j: int|
            0 <= j < i ==> a[j] == #[trigger] b[j]))
    ||| (a.len() <= b.len() && (forall|j: int| 0 <= j < a.len() ==> a[j] == #[trigger] b[j]))
}

pub proof fn lemma_lex_trans(a: Seq<u8>, b: Seq<u8>, c: Seq<u8>)
    requires
        lex_le(a, b),
        lex_le(b, c),
    ensures
        lex_le(a, c),
{
    if exists|i: int|
        0 <= i < a.len() && i < b.len() && a[i] < b[i] && (forall|j: int|
            0 <= j < i ==> a[j] == #[trigger] b[j]) {
        let i1 = choose|i: int|
            0 <= i < a.len() && i < b.len() && a[i] < b[i] && (forall|j: int|
                0 <= j < i ==> a[j] == #[trigger] b[j]);
        if exists|i: int|
            0 <= i < b.len() && i < c.len() && b[i] < c[i] && (forall|j: int|
                0 <= j < i ==> b[j] == #[trigger] c[j]) {
            let i2 = choose|i: int|
                0 <= i < b.len() && i < c.len() && b[i] < c[i] && (forall|j: int|
                    0 <= j < i ==> b[j] == #[trigger] c[j]);
            if i1 <= i2 {
                assert(0 <= i1 < a.len() && i1 < c.len() && a[i1] < c[i1] && (forall|j: int|
                    0 <= j < i1 ==> a[j] == #[trigger] c[j]));
            } else {
                assert(0 <= i2 < a.len() && i2 < c.len() && a[i2] < c[i2] && (forall|j: int|
                    0 <= j < i2 ==> a[j] == #[trigger] c[j]));
            }
        } else {
            if i1 < c.len() {
                assert(0 <= i1 < a.len() && i1 < c.len() && a[i1] < c[i1] && (forall|j: int|
                    0 <= j < i1 ==> a[j] == #[trigger] c[j]));
            } else {
                assert(a.len() <= c.len() ==> (0 <= i1 < a.len() && i1 < c.len()));
                assert(!(a.len() <= c.len()) ==> false) by {
                    if !(a.len() <= c.len()) {
                        assert(c.len() <= i1 < a.len());
                        assert(b.len() <= c.len());
                        assert(i1 < b.len());
                    }
                }
            }
        }
    } else {
        if exists|i: int|
            0 <= i < b.len() && i < c.len() && b[i] < c[i] && (forall|j: int|
                0 <= j < i ==> b[j] == #[trigger] c[j]) {
            let i2 = choose|i: int|
                0 <= i < b.len() && i < c.len() && b[i] < c[i] && (forall|j: int|
                    0 <= j < i ==> b[j] == #[trigger] c[j]);
            if i2 < a.len() {
                assert(0 <= i2 < a.len() && i2 < c.len() && a[i2] < c[i2] && (forall|j: int|
                    0 <= j < i2 ==> a[j] == #[trigger] c[j]));
            } else {
                assert(a.len() <= c.len() && (forall|j: int|
                    0 <= j < a.len() ==> a[j] == #[trigger] c[j]));
            }
        } else {
            assert(a.len() <= c.len() && (forall|j: int|
                0 <= j < a.len() ==> a[j] == #[trigger] c[j]));
        }
    }
}

/// Decide the order; when the answer is no, the reverse holds.
pub fn lex_leq(a: &[u8], b: &[u8]) -> (r: bool)
    ensures
        r == lex_le(a@, b@),
        !r ==> lex_le(b@, a@),
{
    let mut j: usize = 0;
    while j < a.len() && j < b.len()
        invariant
            0 <= j <= a@.len(),
            j <= b@.len(),
            forall|k: int| 0 <= k < j ==> a@[k] == #[trigger] b@[k],
        decreases a@.len() - j,
    {
        if a[j] < b[j] {
            proof {
                assert(0 <= j < a@.len() && j < b@.len() && a@[j as int] < b@[j as int] && (
                forall|k: int| 0 <= k < j ==> a@[k] == #[trigger] b@[k]));
            }
            return true;
        }
        if a[j] > b[j] {
            proof {
                assert(0 <= j < b@.len() && j < a@.len() && b@[j as int] < a@[j as int] && (
                forall|k: int| 0 <= k < j ==> b@[k] == #[trigger] a@[k]));
                assert(!lex_le(a@, b@)) by {
                    if exists|i: int|
                        0 <= i < a@.len() && i < b@.len() && a@[i] < b@[i] && (forall|k: int|
                            0 <= k < i ==> a@[k] == #[trigger] b@[k]) {
                        let i = choose|i: int|
                            0 <= i < a@.len() && i < b@.len() && a@[i] < b@[i] && (forall|
                                k: int,
                            | 0 <= k < i ==> a@[k] == #[trigger] b@[k]);
                        if i < j {
                            assert(a@[i] == b@[i]);
                        } else {
                            assert(a@[j as int] == b@[j as int]);
                        }
                    }
                    if a@.len() <= b@.len() && (forall|k: int|
                        0 <= k < a@.len() ==> a@[k] == #[trigger] b@[k]) {
                        assert(a@[j as int] == b@[j as int]);
                    }
                }
            }
            return false;
        }
        j = j + 1;
    }
    if a.len() <= b.len() {
        true
    } else {
        proof {
            assert(j == b@.len());
            assert(forall|k: int| 0 <= k < b@.len() ==> b@[k] == #[trigger] a@[k]);
            assert(lex_le(b@, a@));
            assert(!lex_le(a@, b@)) by {
                if exists|i: int|
                    0 <= i < a@.len() && i < b@.len() && a@[i] < b@[i] && (forall|k: int|
                        0 <= k < i ==> a@[k] == #[trigger] b@[k]) {
                    let i = choose|i: int|
                        0 <= i < a@.len() && i < b@.len() && a@[i] < b@[i] && (forall|k: int|
                            0 <= k < i ==> a@[k] == #[trigger] b@[k]);
                    assert(a@[i] == b@[i]);
                }
            }
        }
        false
    }
}

/// Membership of a byte string among the views of a list.
pub open spec fn seq_has_name(l: Seq<Vec<u8>>, x: Seq<u8>) -> bool {
    exists|i: int| 0 <= i < l.len() && l[i]@ == x
}

/// Sort pairwise-distinct names lexicographically. The result is the unique
/// sorted arrangement: same length, same members, ascending order.
pub fn sort_names(input: &Vec<Vec<u8>>) -> (r: Vec<Vec<u8>>)
    requires
        forall|a: int, b: int| 0 <= a < b < input@.len() ==> input@[a]@ != input@[b]@,
    ensures
        r@.len() == input@.len(),
        forall|a: int, b: int|
            #![trigger r@[a]@, r@[b]@]
            0 <= a < b < r@.len() ==> lex_le(r@[a]@, r@[b]@),
        forall|a: int| #![trigger r@[a]] 0 <= a < r@.len() ==> seq_has_name(input@, r@[a]@),
        forall|b: int|
            #![trigger input@[b]]
            0 <= b < input@.len() ==> seq_has_name(r@, input@[b]@),
{
    let ghost orig = input@;
    let mut src: Vec<Vec<u8>> = Vec::new();
    let mut i: usize = 0;
    while i < input.len()
        invariant
            0 <= i <= input@.len(),
            orig == input@,
            src@.len() == i,
            forall|a: int| 0 <= a < i ==> #[trigger] src@[a]@ == orig[a]@,
        decreases input@.len() - i,
    {
        src.push(copy_bytes(input[i].as_slice()));
        i = i + 1;
    }
    let mut out: Vec<Vec<u8>> = Vec::new();
    proof {
        assert forall|b: int| #![trigger src@[b]] 0 <= b < src@.len() implies seq_has_name(
            orig,
            src@[b]@,
        ) by {
            assert(orig[b]@ == src@[b]@);
        }
        assert forall|c: int| #![trigger orig[c]] 0 <= c < orig.len() implies (seq_has_name(
            out@,
            orig[c]@,
        ) || seq_has_name(src@, orig[c]@)) by {
            assert(src@[c]@ == orig[c]@);
        }
    }
    while src.len() > 0
        invariant
            orig == input@,
            out@.len() + src@.len() == orig.len(),
            forall|a: int, b: int|
                #![trigger out@[a]@, out@[b]@]
                0 <= a < b < out@.len() ==> lex_le(out@[a]@, out@[b]@),
            forall|a: int, b: int|
                #![trigger out@[a]@, src@[b]@]
                0 <= a < out@.len() && 0 <= b < src@.len() ==> lex_le(out@[a]@, src@[b]@),
            forall|a: int|
                #![trigger out@[a]]
                0 <= a < out@.len() ==> seq_has_name(orig, out@[a]@),
            forall|b: int|
                #![trigger src@[b]]
                0 <= b < src@.len() ==> seq_has_name(orig, src@[b]@),
            forall|c: int|
                #![trigger orig[c]]
                0 <= c < orig.len() ==> (seq_has_name(out@, orig[c]@) || seq_has_name(
                    src@,
                    orig[c]@,
                )),
        decreases src@.len(),
    {
        // find the least remaining name
        let mut best: usize = 0;
        let mut c: usize = 1;
        while c < src.len()
            invariant
                0 <= best < src@.len(),
                1 <= c <= src@.len(),
                forall|d: int| 0 <= d < c ==> lex_le(src@[best as int]@, #[trigger] src@[d]@),
            decreases src@.len() - c,
        {
            if !lex_leq(src[best].as_slice(), src[c].as_slice()) {
                proof {
                    let old_best = best as int;
                    assert(lex_le(src@[c as int]@, src@[old_best]@));
                    assert forall|d: int|
                        0 <= d < c + 1 implies lex_le(
                        src@[c as int]@,
                        #[trigger] src@[d]@,
                    ) by {
                        if d < c {
                            lemma_lex_trans(src@[c as int]@, src@[old_best]@, src@[d]@);
                        } else {
                            assert(lex_le(src@[c as int]@, src@[c as int]@));
                        }
                    }
                }
                best = c;
            }
            c = c + 1;
        }
        let ghost src_pre = src@;
        let m = src.remove(best);
        proof {
            assert(src@ =~= src_pre.remove(best as int));
            assert(m == src_pre[best as int]);
        }
        let ghost out_pre = out@;
        out.push(m);
        proof {
            let w = out@.len() - 1;
            assert(out@[w] == src_pre[best as int]);
            assert forall|a: int, b: int|
                #![trigger out@[a]@, out@[b]@]
                0 <= a < b < out@.len() implies lex_le(out@[a]@, out@[b]@) by {
                if b == w {
                    assert(lex_le(out_pre[a]@, src_pre[best as int]@));
                } else {
                    assert(out@[a] == out_pre[a] && out@[b] == out_pre[b]);
                }
            }
            assert forall|a: int, b: int|
                #![trigger out@[a]@, src@[b]@]
                0 <= a < out@.len() && 0 <= b < src@.len() implies lex_le(
                out@[a]@,
                src@[b]@,
            ) by {
                let b_orig: int = if b < best {
                    b
                } else {
                    b + 1
                };
                assert(src@[b] == src_pre[b_orig]);
                if a == w {
                    assert(lex_le(src_pre[best as int]@, src_pre[b_orig]@));
                } else {
                    assert(out@[a] == out_pre[a]);
                    assert(lex_le(out_pre[a]@, src_pre[b_orig]@));
                }
            }
            assert forall|a: int| #![trigger out@[a]] 0 <= a < out@.len() implies seq_has_name(
                orig,
                out@[a]@,
            ) by {
                if a < w {
                    assert(out@[a] == out_pre[a]);
                } else {
                    assert(out@[a] == src_pre[best as int]);
                    assert(seq_has_name(orig, src_pre[best as int]@));
                }
            }
            assert forall|b: int| #![trigger src@[b]] 0 <= b < src@.len() implies seq_has_name(
                orig,
                src@[b]@,
            ) by {
                let b_orig: int = if b < best {
                    b
                } else {
                    b + 1
                };
                assert(src@[b] == src_pre[b_orig]);
                assert(seq_has_name(orig, src_pre[b_orig]@));
            }
            assert forall|c2: int| #![trigger orig[c2]] 0 <= c2 < orig.len() implies (
            seq_has_name(out@, orig[c2]@) || seq_has_name(src@, orig[c2]@)) by {
                if seq_has_name(out_pre, orig[c2]@) {
                    let a = choose|a: int|
                        0 <= a < out_pre.len() && out_pre[a]@ == orig[c2]@;
                    assert(out@[a]@ == orig[c2]@);
                } else {
                    assert(seq_has_name(src_pre, orig[c2]@));
                    let b = choose|b: int|
                        0 <= b < src_pre.len() && src_pre[b]@ == orig[c2]@;
                    if b == best {
                        assert(out@[w]@ == orig[c2]@);
                    } else if b < best {
                        assert(src@[b]@ == orig[c2]@);
                    } else {
                        assert(src@[b - 1]@ == orig[c2]@);
                    }
                }
            }
        }
    }
    proof {
        assert forall|a: int| #![trigger out@[a]] 0 <= a < out@.len() implies seq_has_name(
            input@,
            out@[a]@,
        ) by {
            assert(seq_has_name(orig, out@[a]@));
        }
        assert forall|b: int| #![trigger input@[b]] 0 <= b < input@.len() implies seq_has_name(
            out@,
            input@[b]@,
        ) by {
            assert(orig[b] == input@[b]);
            assert(seq_has_name(out@, orig[b]@) || seq_has_name(src@, orig[b]@));
        }
    }
    out
}

// ---------------------------------------------------------------------------
// Report text
// ---------------------------------------------------------------------------
pub open spec fn txt_have_hdr() -> Seq<u8> {
    seq![82u8, 79u8, 77u8, 115u8, 32u8, 70u8, 111u8, 117u8, 110u8, 100u8, 58u8, 32u8]
}

fn txt_have_hdr_v() -> (r: Vec<u8>)
    ensures
        r@ == txt_have_hdr(),
{
    let r: Vec<u8> = vec![82u8, 79u8, 77u8, 115u8, 32u8, 70u8, 111u8, 117u8, 110u8, 100u8, 58u8, 32u8];
    proof {
        assert(r@ =~= txt_have_hdr());
    }
    r
}
pub open spec fn txt_missing_hdr() -> Seq<u8> {
    seq![77u8, 105u8, 115u8, 115u8, 105u8, 110u8, 103u8, 32u8, 82u8, 79u8, 77u8, 115u8, 58u8, 32u8]
}

fn txt_missing_hdr_v() -> (r: Vec<u8>)
    ensures
        r@ == txt_missing_hdr(),
{
    let r: Vec<u8> = vec![77u8, 105u8, 115u8, 115u8, 105u8, 110u8, 103u8, 32u8, 82u8, 79u8, 77u8, 115u8, 58u8, 32u8];
    proof {
        assert(r@ =~= txt_missing_hdr());
    }
    r
}
pub open spec fn txt_slash_sep() -> Seq<u8> {
    seq![32u8, 47u8, 32u8]
}

fn txt_slash_sep_v() -> (r: Vec<u8>)
    ensures
        r@ == txt_slash_sep(),
{
    let r: Vec<u8> = vec![32u8, 47u8, 32u8];
    proof {
        assert(r@ =~= txt_slash_sep());
    }
    r
}
pub open spec fn txt_nl() -> Seq<u8> {
    seq![10u8]
}

fn txt_nl_v() -> (r: Vec<u8>)
    ensures
        r@ == txt_nl(),
{
    let r: Vec<u8> = vec![10u8];
    proof {
        assert(r@ =~= txt_nl());
    }
    r
}
pub open spec fn txt_nlnl() -> Seq<u8> {
    seq![10u8, 10u8]
}

fn txt_nlnl_v() -> (r: Vec<u8>)
    ensures
        r@ == txt_nlnl(),
{
    let r: Vec<u8> = vec![10u8, 10u8];
    proof {
        assert(r@ =~= txt_nlnl());
    }
    r
}
pub open spec fn txt_folders_hdr() -> Seq<u8> {
    seq![71u8, 97u8, 109u8, 101u8, 115u8, 32u8, 115u8, 116u8, 111u8, 114u8, 101u8, 100u8, 32u8, 105u8, 110u8, 32u8, 115u8, 117u8, 98u8, 102u8, 111u8, 108u8, 100u8, 101u8, 114u8, 115u8, 58u8, 10u8, 45u8, 32u8, 71u8, 97u8, 109u8, 101u8, 115u8, 32u8, 119u8, 105u8, 116u8, 104u8, 32u8, 109u8, 117u8, 108u8, 116u8, 105u8, 112u8, 108u8, 101u8, 32u8, 82u8, 79u8, 77u8, 32u8, 102u8, 105u8, 108u8, 101u8, 115u8, 10u8, 45u8, 32u8, 83u8, 105u8, 110u8, 103u8, 108u8, 101u8, 32u8, 82u8, 79u8, 77u8, 32u8, 103u8, 97u8, 109u8, 101u8, 115u8, 32u8, 119u8, 104u8, 101u8, 114u8, 101u8, 32u8, 82u8, 79u8, 77u8, 32u8, 102u8, 105u8, 108u8, 101u8, 110u8, 97u8, 109u8, 101u8, 32u8, 100u8, 105u8, 102u8, 102u8, 101u8, 114u8, 115u8, 32u8, 102u8, 114u8, 111u8, 109u8, 32u8, 103u8, 97u8, 109u8, 101u8, 32u8, 110u8, 97u8, 109u8, 101u8, 10u8, 32u8, 32u8, 40u8, 82u8, 79u8, 77u8, 32u8, 107u8, 101u8, 101u8, 112u8, 115u8, 32u8, 105u8, 116u8, 115u8, 32u8, 111u8, 114u8, 105u8, 103u8, 105u8, 110u8, 97u8, 108u8, 32u8, 110u8, 97u8, 109u8, 101u8, 32u8, 102u8, 114u8, 111u8, 109u8, 32u8, 68u8, 65u8, 84u8, 44u8, 32u8, 112u8, 108u8, 97u8, 99u8, 101u8, 100u8, 32u8, 105u8, 110u8, 32u8, 103u8, 97u8, 109u8, 101u8, 45u8, 110u8, 97u8, 109u8, 101u8, 100u8, 32u8, 102u8, 111u8, 108u8, 100u8, 101u8, 114u8, 41u8, 10u8, 10u8]
}

fn txt_folders_hdr_v() -> (r: Vec<u8>)
    ensures
        r@ == txt_folders_hdr(),
{
    let r: Vec<u8> = vec![71u8, 97u8, 109u8, 101u8, 115u8, 32u8, 115u8, 116u8, 111u8, 114u8, 101u8, 100u8, 32u8, 105u8, 110u8, 32u8, 115u8, 117u8, 98u8, 102u8, 111u8, 108u8, 100u8, 101u8, 114u8, 115u8, 58u8, 10u8, 45u8, 32u8, 71u8, 97u8, 109u8, 101u8, 115u8, 32u8, 119u8, 105u8, 116u8, 104u8, 32u8, 109u8, 117u8, 108u8, 116u8, 105u8, 112u8, 108u8, 101u8, 32u8, 82u8, 79u8, 77u8, 32u8, 102u8, 105u8, 108u8, 101u8, 115u8, 10u8, 45u8, 32u8, 83u8, 105u8, 110u8, 103u8, 108u8, 101u8, 32u8, 82u8, 79u8, 77u8, 32u8, 103u8, 97u8, 109u8, 101u8, 115u8, 32u8, 119u8, 104u8, 101u8, 114u8, 101u8, 32u8, 82u8, 79u8, 77u8, 32u8, 102u8, 105u8, 108u8, 101u8, 110u8, 97u8, 109u8, 101u8, 32u8, 100u8, 105u8, 102u8, 102u8, 101u8, 114u8, 115u8, 32u8, 102u8, 114u8, 111u8, 109u8, 32u8, 103u8, 97u8, 109u8, 101u8, 32u8, 110u8, 97u8, 109u8, 101u8, 10u8, 32u8, 32u8, 40u8, 82u8, 79u8, 77u8, 32u8, 107u8, 101u8, 101u8, 112u8, 115u8, 32u8, 105u8, 116u8, 115u8, 32u8, 111u8, 114u8, 105u8, 103u8, 105u8, 110u8, 97u8, 108u8, 32u8, 110u8, 97u8, 109u8, 101u8, 32u8, 102u8, 114u8, 111u8, 109u8, 32u8, 68u8, 65u8, 84u8, 44u8, 32u8, 112u8, 108u8, 97u8, 99u8, 101u8, 100u8, 32u8, 105u8, 110u8, 32u8, 103u8, 97u8, 109u8, 101u8, 45u8, 110u8, 97u8, 109u8, 101u8, 100u8, 32u8, 102u8, 111u8, 108u8, 100u8, 101u8, 114u8, 41u8, 10u8, 10u8];
    proof {
        assert(r@ =~= txt_folders_hdr());
    }
    r
}
pub open spec fn txt_shared_hdr() -> Seq<u8> {
    seq![83u8, 104u8, 97u8, 114u8, 101u8, 100u8, 32u8, 82u8, 79u8, 77u8, 115u8, 32u8, 40u8, 115u8, 97u8, 109u8, 101u8, 32u8, 102u8, 105u8, 108u8, 101u8, 32u8, 99u8, 111u8, 110u8, 116u8, 101u8, 110u8, 116u8, 32u8, 117u8, 115u8, 101u8, 100u8, 32u8, 98u8, 121u8, 32u8, 109u8, 117u8, 108u8, 116u8, 105u8, 112u8, 108u8, 101u8, 32u8, 103u8, 97u8, 109u8, 101u8, 115u8, 32u8, 45u8, 32u8, 101u8, 97u8, 99u8, 104u8, 32u8, 104u8, 97u8, 115u8, 32u8, 105u8, 116u8, 115u8, 32u8, 111u8, 119u8, 110u8, 32u8, 99u8, 111u8, 112u8, 121u8, 41u8, 58u8, 10u8, 61u8, 61u8, 61u8, 61u8, 61u8, 61u8, 61u8, 61u8, 61u8, 61u8, 61u8, 61u8, 61u8, 61u8, 61u8, 61u8, 61u8, 61u8, 61u8, 61u8, 61u8, 61u8, 61u8, 61u8, 61u8, 61u8, 61u8, 61u8, 61u8, 61u8, 61u8, 61u8, 61u8, 61u8, 61u8, 61u8, 61u8, 61u8, 61u8, 61u8, 61u8, 61u8, 61u8, 61u8, 61u8, 61u8, 61u8, 61u8, 61u8, 61u8, 61u8, 61u8, 61u8, 61u8, 61u8, 61u8, 61u8, 61u8, 61u8, 61u8, 61u8, 61u8, 61u8, 61u8, 61u8, 61u8, 61u8, 61u8, 61u8, 61u8, 61u8, 61u8, 61u8, 61u8, 61u8, 61u8, 61u8, 61u8, 61u8, 10u8, 10u8]
}

fn txt_shared_hdr_v() -> (r: Vec<u8>)
    ensures
        r@ == txt_shared_hdr(),
{
    let r: Vec<u8> = vec![83u8, 104u8, 97u8, 114u8, 101u8, 100u8, 32u8, 82u8, 79u8, 77u8, 115u8, 32u8, 40u8, 115u8, 97u8, 109u8, 101u8, 32u8, 102u8, 105u8, 108u8, 101u8, 32u8, 99u8, 111u8, 110u8, 116u8, 101u8, 110u8, 116u8, 32u8, 117u8, 115u8, 101u8, 100u8, 32u8, 98u8, 121u8, 32u8, 109u8, 117u8, 108u8, 116u8, 105u8, 112u8, 108u8, 101u8, 32u8, 103u8, 97u8, 109u8, 101u8, 115u8, 32u8, 45u8, 32u8, 101u8, 97u8, 99u8, 104u8, 32u8, 104u8, 97u8, 115u8, 32u8, 105u8, 116u8, 115u8, 32u8, 111u8, 119u8, 110u8, 32u8, 99u8, 111u8, 112u8, 121u8, 41u8, 58u8, 10u8, 61u8, 61u8, 61u8, 61u8, 61u8, 61u8, 61u8, 61u8, 61u8, 61u8, 61u8, 61u8, 61u8, 61u8, 61u8, 61u8, 61u8, 61u8, 61u8, 61u8, 61u8, 61u8, 61u8, 61u8, 61u8, 61u8, 61u8, 61u8, 61u8, 61u8, 61u8, 61u8, 61u8, 61u8, 61u8, 61u8, 61u8, 61u8, 61u8, 61u8, 61u8, 61u8, 61u8, 61u8, 61u8, 61u8, 61u8, 61u8, 61u8, 61u8, 61u8, 61u8, 61u8, 61u8, 61u8, 61u8, 61u8, 61u8, 61u8, 61u8, 61u8, 61u8, 61u8, 61u8, 61u8, 61u8, 61u8, 61u8, 61u8, 61u8, 61u8, 61u8, 61u8, 61u8, 61u8, 61u8, 61u8, 61u8, 61u8, 10u8, 10u8];
    proof {
        assert(r@ =~= txt_shared_hdr());
    }
    r
}
pub open spec fn txt_hash_lbl() -> Seq<u8> {
    seq![72u8, 97u8, 115u8, 104u8, 58u8, 32u8]
}

fn txt_hash_lbl_v() -> (r: Vec<u8>)
    ensures
        r@ == txt_hash_lbl(),
{
    let r: Vec<u8> = vec![72u8, 97u8, 115u8, 104u8, 58u8, 32u8];
    proof {
        assert(r@ =~= txt_hash_lbl());
    }
    r
}
pub open spec fn txt_shared_by() -> Seq<u8> {
    seq![83u8, 104u8, 97u8, 114u8, 101u8, 100u8, 32u8, 98u8, 121u8, 32u8]
}

fn txt_shared_by_v() -> (r: Vec<u8>)
    ensures
        r@ == txt_shared_by(),
{
    let r: Vec<u8> = vec![83u8, 104u8, 97u8, 114u8, 101u8, 100u8, 32u8, 98u8, 121u8, 32u8];
    proof {
        assert(r@ =~= txt_shared_by());
    }
    r
}
pub open spec fn txt_games_colon() -> Seq<u8> {
    seq![32u8, 103u8, 97u8, 109u8, 101u8, 115u8, 58u8, 10u8]
}

fn txt_games_colon_v() -> (r: Vec<u8>)
    ensures
        r@ == txt_games_colon(),
{
    let r: Vec<u8> = vec![32u8, 103u8, 97u8, 109u8, 101u8, 115u8, 58u8, 10u8];
    proof {
        assert(r@ =~= txt_games_colon());
    }
    r
}
pub open spec fn txt_rom_names_lbl() -> Seq<u8> {
    seq![82u8, 79u8, 77u8, 32u8, 110u8, 97u8, 109u8, 101u8, 40u8, 115u8, 41u8, 58u8, 32u8]
}

fn txt_rom_names_lbl_v() -> (r: Vec<u8>)
    ensures
        r@ == txt_rom_names_lbl(),
{
    let r: Vec<u8> = vec![82u8, 79u8, 77u8, 32u8, 110u8, 97u8, 109u8, 101u8, 40u8, 115u8, 41u8, 58u8, 32u8];
    proof {
        assert(r@ =~= txt_rom_names_lbl());
    }
    r
}
pub open spec fn txt_comma_sep() -> Seq<u8> {
    seq![44u8, 32u8]
}

fn txt_comma_sep_v() -> (r: Vec<u8>)
    ensures
        r@ == txt_comma_sep(),
{
    let r: Vec<u8> = vec![44u8, 32u8];
    proof {
        assert(r@ =~= txt_comma_sep());
    }
    r
}
pub open spec fn txt_game_line_pre() -> Seq<u8> {
    seq![32u8, 32u8, 45u8, 32u8]
}

fn txt_game_line_pre_v() -> (r: Vec<u8>)
    ensures
        r@ == txt_game_line_pre(),
{
    let r: Vec<u8> = vec![32u8, 32u8, 45u8, 32u8];
    proof {
        assert(r@ =~= txt_game_line_pre());
    }
    r
}
pub open spec fn txt_rule_line() -> Seq<u8> {
    seq![10u8, 45u8, 45u8, 45u8, 45u8, 45u8, 45u8, 45u8, 45u8, 45u8, 45u8, 45u8, 45u8, 45u8, 45u8, 45u8, 45u8, 45u8, 45u8, 45u8, 45u8, 45u8, 45u8, 45u8, 45u8, 45u8, 45u8, 45u8, 45u8, 45u8, 45u8, 45u8, 45u8, 45u8, 45u8, 45u8, 45u8, 45u8, 45u8, 45u8, 45u8, 45u8, 45u8, 45u8, 45u8, 45u8, 45u8, 45u8, 45u8, 45u8, 45u8, 45u8, 45u8, 45u8, 45u8, 45u8, 45u8, 45u8, 45u8, 45u8, 45u8, 45u8, 45u8, 45u8, 45u8, 45u8, 45u8, 45u8, 45u8, 45u8, 45u8, 45u8, 45u8, 45u8, 45u8, 45u8, 45u8, 45u8, 45u8, 45u8, 45u8, 10u8, 10u8]
}

fn txt_rule_line_v() -> (r: Vec<u8>)
    ensures
        r@ == txt_rule_line(),
{
    let r: Vec<u8> = vec![10u8, 45u8, 45u8, 45u8, 45u8, 45u8, 45u8, 45u8, 45u8, 45u8, 45u8, 45u8, 45u8, 45u8, 45u8, 45u8, 45u8, 45u8, 45u8, 45u8, 45u8, 45u8, 45u8, 45u8, 45u8, 45u8, 45u8, 45u8, 45u8, 45u8, 45u8, 45u8, 45u8, 45u8, 45u8, 45u8, 45u8, 45u8, 45u8, 45u8, 45u8, 45u8, 45u8, 45u8, 45u8, 45u8, 45u8, 45u8, 45u8, 45u8, 45u8, 45u8, 45u8, 45u8, 45u8, 45u8, 45u8, 45u8, 45u8, 45u8, 45u8, 45u8, 45u8, 45u8, 45u8, 45u8, 45u8, 45u8, 45u8, 45u8, 45u8, 45u8, 45u8, 45u8, 45u8, 45u8, 45u8, 45u8, 45u8, 45u8, 45u8, 10u8, 10u8];
    proof {
        assert(r@ =~= txt_rule_line());
    }
    r
}
pub open spec fn txt_summary_lbl() -> Seq<u8> {
    seq![83u8, 117u8, 109u8, 109u8, 97u8, 114u8, 121u8, 58u8, 10u8, 84u8, 111u8, 116u8, 97u8, 108u8, 32u8, 115u8, 104u8, 97u8, 114u8, 101u8, 100u8, 32u8, 102u8, 105u8, 108u8, 101u8, 115u8, 58u8, 32u8]
}

fn txt_summary_lbl_v() -> (r: Vec<u8>)
    ensures
        r@ == txt_summary_lbl(),
{
    let r: Vec<u8> = vec![83u8, 117u8, 109u8, 109u8, 97u8, 114u8, 121u8, 58u8, 10u8, 84u8, 111u8, 116u8, 97u8, 108u8, 32u8, 115u8, 104u8, 97u8, 114u8, 101u8, 100u8, 32u8, 102u8, 105u8, 108u8, 101u8, 115u8, 58u8, 32u8];
    proof {
        assert(r@ =~= txt_summary_lbl());
    }
    r
}
pub open spec fn txt_affected_lbl() -> Seq<u8> {
    seq![10u8, 84u8, 111u8, 116u8, 97u8, 108u8, 32u8, 103u8, 97u8, 109u8, 101u8, 115u8, 32u8, 97u8, 102u8, 102u8, 101u8, 99u8, 116u8, 101u8, 100u8, 58u8, 32u8]
}

fn txt_affected_lbl_v() -> (r: Vec<u8>)
    ensures
        r@ == txt_affected_lbl(),
{
    let r: Vec<u8> = vec![10u8, 84u8, 111u8, 116u8, 97u8, 108u8, 32u8, 103u8, 97u8, 109u8, 101u8, 115u8, 32u8, 97u8, 102u8, 102u8, 101u8, 99u8, 116u8, 101u8, 100u8, 58u8, 32u8];
    proof {
        assert(r@ =~= txt_affected_lbl());
    }
    r
}

/// One name per line.
pub open spec fn name_lines(names: Seq<Seq<u8>>) -> Seq<u8>
    decreases names.len(),
{
    if names.len() == 0 {
        Seq::<u8>::empty()
    } else {
        name_lines(names.drop_last()) + names.last() + txt_nl()
    }
}

fn push_name_lines(out: &mut Vec<u8>, names: &Vec<Vec<u8>>)
    ensures
        final(out)@ == old(out)@ + name_lines(names@.map_values(|v: Vec<u8>| v@)),
{
    let ghost m = names@.map_values(|v: Vec<u8>| v@);
    let mut i: usize = 0;
    proof {
        assert(out@ =~= old(out)@ + name_lines(m.take(0)));
    }
    while i < names.len()
        invariant
            0 <= i <= names@.len(),
            m == names@.map_values(|v: Vec<u8>| v@),
            out@ == old(out)@ + name_lines(m.take(i as int)),
        decreases names@.len() - i,
    {
        push_all(out, names[i].as_slice());
        out.push(10);
        proof {
            assert(m.take(i + 1 as int).drop_last() =~= m.take(i as int));
            assert(m.take(i + 1 as int).last() == m[i as int]);
            assert(out@ =~= old(out)@ + name_lines(m.take(i + 1 as int)));
        }
        i = i + 1;
    }
    proof {
        assert(m.take(i as int) =~= m);
    }
}

/// The found-games report: a count line, a blank line, one game per line.
pub open spec fn have_report_spec(names: Seq<Seq<u8>>, total: nat) -> Seq<u8> {
    txt_have_hdr() + dec_rep(names.len()) + txt_slash_sep() + dec_rep(total) + txt_nlnl()
        + name_lines(names)
}

pub fn have_report(sorted_names: &Vec<Vec<u8>>, total: u64) -> (r: Vec<u8>)
    requires
        sorted_names@.len() <= u64::MAX,
    ensures
        r@ == have_report_spec(sorted_names@.map_values(|v: Vec<u8>| v@), total as nat),
{
    let mut out: Vec<u8> = txt_have_hdr_v();
    let n = u64_to_dec(sorted_names.len() as u64);
    push_all(&mut out, n.as_slice());
    push_all(&mut out, txt_slash_sep_v().as_slice());
    let t = u64_to_dec(total);
    push_all(&mut out, t.as_slice());
    push_all(&mut out, txt_nlnl_v().as_slice());
    push_name_lines(&mut out, sorted_names);
    proof {
        assert(out@ =~= have_report_spec(
            sorted_names@.map_values(|v: Vec<u8>| v@),
            total as nat,
        ));
    }
    out
}

/// The missing-games report: a count line, a blank line, one game per line.
pub open spec fn missing_report_spec(names: Seq<Seq<u8>>, total: nat) -> Seq<u8> {
    txt_missing_hdr() + dec_rep(names.len()) + txt_slash_sep() + dec_rep(total) + txt_nlnl()
        + name_lines(names)
}

pub fn missing_report(sorted_names: &Vec<Vec<u8>>, total: u64) -> (r: Vec<u8>)
    requires
        sorted_names@.len() <= u64::MAX,
    ensures
        r@ == missing_report_spec(sorted_names@.map_values(|v: Vec<u8>| v@), total as nat),
{
    let mut out: Vec<u8> = txt_missing_hdr_v();
    let n = u64_to_dec(sorted_names.len() as u64);
    push_all(&mut out, n.as_slice());
    push_all(&mut out, txt_slash_sep_v().as_slice());
    let t = u64_to_dec(total);
    push_all(&mut out, t.as_slice());
    push_all(&mut out, txt_nlnl_v().as_slice());
    push_name_lines(&mut out, sorted_names);
    proof {
        assert(out@ =~= missing_report_spec(
            sorted_names@.map_values(|v: Vec<u8>| v@),
            total as nat,
        ));
    }
    out
}

/// The foldered-games report: the fixed explanation, then one game per line.
pub open spec fn folders_report_spec(names: Seq<Seq<u8>>) -> Seq<u8> {
    txt_folders_hdr() + name_lines(names)
}

pub fn folders_report(sorted_names: &Vec<Vec<u8>>) -> (r: Vec<u8>)
    ensures
        r@ == folders_report_spec(sorted_names@.map_values(|v: Vec<u8>| v@)),
{
    let mut out: Vec<u8> = txt_folders_hdr_v();
    push_name_lines(&mut out, sorted_names);
    proof {
        assert(out@ =~= folders_report_spec(sorted_names@.map_values(|v: Vec<u8>| v@)));
    }
    out
}

/// One prepared shared-content entry: a digest, the distinct placed names
/// recorded for it, and the games sharing it, already sorted for output.
pub struct SharedReportEntry {
    pub hash: Vec<u8>,
    pub names: Vec<Vec<u8>>,
    pub games: Vec<Vec<u8>>,
}

pub ghost struct SharedEntryModel {
    pub hash: Seq<u8>,
    pub names: Seq<Seq<u8>>,
    pub games: Seq<Seq<u8>>,
}

impl View for SharedReportEntry {
    type V = SharedEntryModel;

    open spec fn view(&self) -> SharedEntryModel {
        SharedEntryModel {
            hash: self.hash@,
            names: self.names@.map_values(|v: Vec<u8>| v@),
            games: self.games@.map_values(|v: Vec<u8>| v@),
        }
    }
}

/// Names joined with comma separators.
pub open spec fn joined(names: Seq<Seq<u8>>) -> Seq<u8>
    decreases names.len(),
{
    if names.len() == 0 {
        Seq::<u8>::empty()
    } else if names.len() == 1 {
        names[0]
    } else {
        joined(names.drop_last()) + txt_comma_sep() + names.last()
    }
}

/// Game lines of one shared entry.
pub open spec fn game_lines(games: Seq<Seq<u8>>) -> Seq<u8>
    decreases games.len(),
{
    if games.len() == 0 {
        Seq::<u8>::empty()
    } else {
        game_lines(games.drop_last()) + txt_game_line_pre() + games.last() + txt_nl()
    }
}

/// One shared-content block.
pub open spec fn shared_block(e: SharedEntryModel) -> Seq<u8> {
    txt_hash_lbl() + e.hash + txt_nl() + txt_shared_by() + dec_rep(e.games.len())
        + txt_games_colon() + (if e.names.len() > 0 {
        txt_rom_names_lbl() + joined(e.names) + txt_nl()
    } else {
        Seq::<u8>::empty()
    }) + txt_nl() + game_lines(e.games) + txt_rule_line()
}

pub open spec fn shared_blocks(es: Seq<SharedEntryModel>) -> Seq<u8>
    decreases es.len(),
{
    if es.len() == 0 {
        Seq::<u8>::empty()
    } else {
        shared_blocks(es.drop_last()) + shared_block(es.last())
    }
}

/// The shared-content report: header, one block per digest, a summary.
pub open spec fn shared_report_spec(es: Seq<SharedEntryModel>, affected: nat) -> Seq<u8> {
    txt_shared_hdr() + shared_blocks(es) + txt_summary_lbl() + dec_rep(es.len())
        + txt_affected_lbl() + dec_rep(affected) + txt_nl()
}

fn push_joined(out: &mut Vec<u8>, names: &Vec<Vec<u8>>)
    ensures
        final(out)@ == old(out)@ + joined(names@.map_values(|v: Vec<u8>| v@)),
{
    let ghost m = names@.map_values(|v: Vec<u8>| v@);
    let mut i: usize = 0;
    proof {
        assert(out@ =~= old(out)@ + joined(m.take(0)));
    }
    while i < names.len()
        invariant
            0 <= i <= names@.len(),
            m == names@.map_values(|v: Vec<u8>| v@),
            out@ == old(out)@ + joined(m.take(i as int)),
        decreases names@.len() - i,
    {
        if i > 0 {
            push_all(out, txt_comma_sep_v().as_slice());
        }
        push_all(out, names[i].as_slice());
        proof {
            assert(m.take(i + 1 as int).drop_last() =~= m.take(i as int));
            assert(m.take(i + 1 as int).last() == m[i as int]);
            if i == 0 {
                assert(joined(m.take(1)) == m.take(1)[0]);
                assert(m.take(1)[0] == m[0]);
                assert(out@ =~= old(out)@ + joined(m.take(1)));
            } else {
                assert(out@ =~= old(out)@ + joined(m.take(i + 1 as int)));
            }
        }
        i = i + 1;
    }
    proof {
        assert(m.take(i as int) =~= m);
    }
}

fn push_game_lines(out: &mut Vec<u8>, games: &Vec<Vec<u8>>)
    ensures
        final(out)@ == old(out)@ + game_lines(games@.map_values(|v: Vec<u8>| v@)),
{
    let ghost m = games@.map_values(|v: Vec<u8>| v@);
    let mut i: usize = 0;
    proof {
        assert(out@ =~= old(out)@ + game_lines(m.take(0)));
    }
    while i < games.len()
        invariant
            0 <= i <= games@.len(),
            m == games@.map_values(|v: Vec<u8>| v@),
            out@ == old(out)@ + game_lines(m.take(i as int)),
        decreases games@.len() - i,
    {
        push_all(out, txt_game_line_pre_v().as_slice());
        push_all(out, games[i].as_slice());
        out.push(10);
        proof {
            assert(m.take(i + 1 as int).drop_last() =~= m.take(i as int));
            assert(m.take(i + 1 as int).last() == m[i as int]);
            assert(out@ =~= old(out)@ + game_lines(m.take(i + 1 as int)));
        }
        i = i + 1;
    }
    proof {
        assert(m.take(i as int) =~= m);
    }
}

/// Render the shared-content report from prepared entries.
#[verifier::rlimit(80)]
pub fn shared_report(entries: &Vec<SharedReportEntry>, affected: u64) -> (r: Vec<u8>)
    requires
        entries@.len() <= u64::MAX,
        forall|i: int| 0 <= i < entries@.len() ==> (#[trigger] entries@[i])@.games.len() <= u64::MAX,
    ensures
        r@ == shared_report_spec(
            entries@.map_values(|e: SharedReportEntry| e@),
            affected as nat,
        ),
{
    let ghost m = entries@.map_values(|e: SharedReportEntry| e@);
    let mut out: Vec<u8> = txt_shared_hdr_v();
    let mut i: usize = 0;
    proof {
        assert(out@ =~= txt_shared_hdr() + shared_blocks(m.take(0)));
    }
    while i < entries.len()
        invariant
            0 <= i <= entries@.len(),
            m == entries@.map_values(|e: SharedReportEntry| e@),
            forall|k: int| 0 <= k < entries@.len() ==> (#[trigger] entries@[k])@.games.len()
                <= u64::MAX,
            out@ == txt_shared_hdr() + shared_blocks(m.take(i as int)),
        decreases entries@.len() - i,
    {
        let e = &entries[i];
        proof {
            assert(e@ == m[i as int]);
            assert(m.take(i + 1 as int).drop_last() =~= m.take(i as int));
            assert(m.take(i + 1 as int).last() == m[i as int]);
        }
        push_all(&mut out, txt_hash_lbl_v().as_slice());
        push_all(&mut out, e.hash.as_slice());
        out.push(10);
        push_all(&mut out, txt_shared_by_v().as_slice());
        let gcount = u64_to_dec(e.games.len() as u64);
        push_all(&mut out, gcount.as_slice());
        push_all(&mut out, txt_games_colon_v().as_slice());
        if e.names.len() > 0 {
            push_all(&mut out, txt_rom_names_lbl_v().as_slice());
            push_joined(&mut out, &e.names);
            out.push(10);
        }
        out.push(10);
        push_game_lines(&mut out, &e.games);
        push_all(&mut out, txt_rule_line_v().as_slice());
        proof {
            assert(out@ =~= txt_shared_hdr() + shared_blocks(m.take(i + 1 as int)));
        }
        i = i + 1;
    }
    proof {
        assert(m.take(i as int) =~= m);
    }
    push_all(&mut out, txt_summary_lbl_v().as_slice());
    let total = u64_to_dec(entries.len() as u64);
    push_all(&mut out, total.as_slice());
    push_all(&mut out, txt_affected_lbl_v().as_slice());
    let aff = u64_to_dec(affected);
    push_all(&mut out, aff.as_slice());
    out.push(10);
    proof {
        assert(out@ =~= shared_report_spec(m, affected as nat));
    }
    out
}

} // verus!
