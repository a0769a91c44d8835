//! Intersection kernels: the two phases of the phrase intersection of two
//! posting lists.
//!
//! Phase one matches words of equal key (the left word moved `lhs_len / 16`
//! groups ahead) and keeps the left bits shifted up by `lhs_len % 16` that the
//! right word also has. Bits that spill over the top of a group are collected
//! as *carry* words one group further on. Phase two matches the carry words
//! against the right list and keeps the spilled bits.
use crate::packed::{
    bits_of, bm, clear_values, key_of, lemma_bm_above, lemma_bm_at, lemma_bm_gap, lemma_bm_push,
    lemma_key_bits, lemma_or_low, sorted_keys, unpack_values, ADD_ONE_GROUP,
};
use vstd::prelude::*;

verus! {

/// A bound above every key.
pub open spec fn no_bound() -> int {
    0x1_0000_0000_0000_0000
}

/// Keys of words live below this bound.
pub open spec fn key_limit() -> int {
    0x1_0000_0000_0000
}

/// Left bits moved up `k` places inside their group.
pub open spec fn shl_bits(v: u16, k: u16) -> u16 {
    v << k
}

/// Left bits that spill into the next group when moved up `k` places.
pub open spec fn carry_bits(v: u16, k: u16) -> u16 {
    if k == 0 {
        0
    } else {
        v >> ((16 - k) as u16)
    }
}

/// Bits of `v` rotated up `k` places.
pub open spec fn rotl_bits(v: u16, k: u16) -> u16 {
    if k == 0 {
        v
    } else {
        (v << k) | (v >> ((16 - k) as u16))
    }
}

/// Mask of the `k` top bits of a group.
pub open spec fn msb_mask_of(k: u16) -> u16 {
    !(0xFFFFu16 >> k)
}

/// Mask of the `k` low bits of a group.
pub open spec fn lsb_mask_of(k: u16) -> u16 {
    !(0xFFFFu16 << k)
}

/// What a phase keeps of a left and a right bitmap of equal key.
pub open spec fn pair_bits(first: bool, vl: u16, vr: u16, k: u16) -> u16 {
    if first {
        shl_bits(vl, k) & vr
    } else {
        carry_bits(vl, k) & vr
    }
}

/// What a phase produces under `key`, the left list moved `c` groups ahead.
pub open spec fn phase_bits(
    first: bool,
    l: Seq<u64>,
    r: Seq<u64>,
    c: int,
    k: u16,
    key: int,
) -> u16 {
    pair_bits(first, bm(l, key - c), bm(r, key), k)
}

/// Group offset of a phrase distance.
pub open spec fn group_shift(n: u32) -> int {
    n as int / 16
}

/// Bit offset of a phrase distance.
pub open spec fn bit_shift(n: u32) -> u16 {
    (n % 16) as u16
}

/// Bits of the phrase intersection under `key`: the positions `p` of the right
/// list such that `p - n` is a position of the left list.
pub open spec fn phrase_bits(l: Seq<u64>, r: Seq<u64>, n: u32, key: int) -> u16 {
    bm(r, key) & (shl_bits(bm(l, key - group_shift(n)), bit_shift(n)) | carry_bits(
        bm(l, key - group_shift(n) - 1),
        bit_shift(n),
    ))
}

/// `out` is the posting list of the phrase `l` then `r`, `n` positions apart.
pub open spec fn is_phrase_result(l: Seq<u64>, r: Seq<u64>, n: u32, out: Seq<u64>) -> bool {
    crate::packed::wf_packed(out) && forall|key: int| #[trigger]
        bm(out, key) == phrase_bits(l, r, n, key)
}

/// Key of the next left word, moved `c` groups ahead.
pub open spec fn left_bound(l: Seq<u64>, c: int, li: int) -> int {
    if 0 <= li < l.len() {
        key_of(l[li]) + c
    } else {
        no_bound()
    }
}

/// Key of the next right word.
pub open spec fn right_bound(r: Seq<u64>, ri: int) -> int {
    if 0 <= ri < r.len() {
        key_of(r[ri])
    } else {
        no_bound()
    }
}

pub open spec fn min_int(a: int, b: int) -> int {
    if a < b {
        a
    } else {
        b
    }
}

/// `key` is the key of a left word moved `c` groups ahead and of a right word.
pub open spec fn common_key(l: Seq<u64>, r: Seq<u64>, c: int, key: int) -> bool {
    exists|i: int, j: int|
        0 <= i < l.len() && 0 <= j < r.len() && #[trigger] key_of(l[i]) + c == key
            && #[trigger] key_of(r[j]) == key
}

/// Some word of `p` has key `key`.
pub open spec fn has_key(p: Seq<u64>, key: int) -> bool {
    exists|x: int| 0 <= x < p.len() && key_of(#[trigger] p[x]) == key
}

/// The carry words of the left words `s`, moved `c` groups ahead: for each
/// word whose top `k` bits are not all zero, the word one group further on
/// with the same bitmap (none past the last key there is).
pub open spec fn carries_of(s: Seq<u64>, c: int, k: u16) -> Seq<u64>
    decreases s.len(),
{
    if s.len() == 0 {
        Seq::empty()
    } else {
        let w = s.last();
        let prev = carries_of(s.drop_last(), c, k);
        if carry_bits(bits_of(w), k) != 0 && key_of(w) + c + 1 < key_limit() {
            prev.push(crate::packed::word(key_of(w) + c + 1, bits_of(w)))
        } else {
            prev
        }
    }
}

/// The left words before `li`, moved `c` groups ahead, lie at or below the
/// last right key.
pub open spec fn consumed_below(l: Seq<u64>, r: Seq<u64>, c: int, li: int) -> bool {
    forall|x: int| 0 <= x < li ==> r.len() > 0 && key_of(#[trigger] l[x]) + c <= key_of(r.last())
}

/// The word-level part of a kernel state: the primary output holds a word for
/// each common key below both next keys and for no other key; in phase one
/// the carry output is exactly the carry words of the consumed left words.
pub open spec fn kernel_extra(
    first: bool,
    l: Seq<u64>,
    r: Seq<u64>,
    c: int,
    k: u16,
    li: int,
    ri: int,
    p: Seq<u64>,
    cr: Seq<u64>,
) -> bool {
    let m = min_int(left_bound(l, c, li), right_bound(r, ri));
    &&& forall|x: int| 0 <= x < p.len() ==> common_key(l, r, c, key_of(#[trigger] p[x]))
    &&& forall|i: int, j: int|
        0 <= i < l.len() && 0 <= j < r.len() && key_of(#[trigger] l[i]) + c == key_of(
            #[trigger] r[j],
        ) && key_of(r[j]) < m ==> has_key(p, key_of(r[j]))
    &&& first ==> cr == carries_of(l.take(li), c, k) && consumed_below(l, r, c, li)
}

/// State of a kernel after it consumed `l[..li]` and `r[..ri]`: the primary
/// output `p` is exact below both next keys, and in phase one the carry output
/// `cr` is exact (as far as spilled bits go) up to the next left key.
pub open spec fn kernel_inv(
    first: bool,
    l: Seq<u64>,
    r: Seq<u64>,
    c: int,
    k: u16,
    li: int,
    ri: int,
    p: Seq<u64>,
    cr: Seq<u64>,
) -> bool {
    let lb = left_bound(l, c, li);
    let rb = right_bound(r, ri);
    &&& 0 <= li <= l.len()
    &&& 0 <= ri <= r.len()
    &&& sorted_keys(p)
    &&& forall|x: int| 0 <= x < p.len() ==> key_of(#[trigger] p[x]) < min_int(lb, rb)
    &&& forall|key: int| key < min_int(lb, rb) ==> #[trigger] bm(p, key) == phase_bits(
        first,
        l,
        r,
        c,
        k,
        key,
    )
    &&& forall|x: int| 0 <= x < ri ==> key_of(#[trigger] r[x]) < lb
    &&& forall|x: int| 0 <= x < li ==> key_of(#[trigger] l[x]) + c < rb
    &&& kernel_extra(first, l, r, c, k, li, ri, p, cr)
    &&& first ==> {
        &&& sorted_keys(cr)
        &&& forall|x: int| 0 <= x < cr.len() ==> key_of(#[trigger] cr[x]) <= lb
        &&& forall|key: int|
            key <= lb && key < key_limit() ==> carry_bits(#[trigger] bm(cr, key), k) == carry_bits(
                bm(l, key - c - 1),
                k,
            )
    }
}

/// The masks and shifts handed to a kernel.
pub open spec fn kernel_args(
    first: bool,
    add_to_group: u64,
    lhs_len: u16,
    msb_mask: u16,
    lsb_mask: u16,
) -> bool {
    &&& lhs_len < 16
    &&& msb_mask == msb_mask_of(lhs_len)
    &&& lsb_mask == lsb_mask_of(lhs_len)
    &&& add_to_group % 65536 == 0
    &&& add_to_group <= 0x1000_0000_0000
    &&& !first ==> add_to_group == 0
}

pub proof fn lemma_bits_facts(v: u16, w: u16, k: u16)
    requires
        k < 16,
    ensures
        (v & msb_mask_of(k) == 0) <==> carry_bits(v, k) == 0,
        rotl_bits(v, k) & lsb_mask_of(k) == carry_bits(v, k),
        v & 0 == 0,
        carry_bits(0, k) == 0,
        shl_bits(0, k) == 0,
        (v & w) | (0u16 & w) == v & w,
        pair_bits(true, v, 0, k) == 0,
        pair_bits(false, v, 0, k) == 0,
        pair_bits(true, 0, w, k) == 0,
        pair_bits(false, 0, w, k) == 0,
{
    assert(k < 16 ==> ((v & !(0xFFFFu16 >> k) == 0) <==> (if k == 0 {
        0u16
    } else {
        v >> ((16 - k) as u16)
    }) == 0)) by (bit_vector);
    assert(k < 16 ==> (if k == 0 {
        v
    } else {
        (v << k) | (v >> ((16 - k) as u16))
    }) & !(0xFFFFu16 << k) == (if k == 0 {
        0u16
    } else {
        v >> ((16 - k) as u16)
    })) by (bit_vector);
    assert(v & 0 == 0) by (bit_vector);
    assert(k < 16 ==> (if k == 0 {
        0u16
    } else {
        0u16 >> ((16 - k) as u16)
    }) == 0) by (bit_vector);
    assert((v & w) | (0u16 & w) == v & w) by (bit_vector);
    assert((v << k) & 0 == 0) by (bit_vector);
    assert(0u16 << k == 0) by (bit_vector);
    assert(0u16 & w == 0) by (bit_vector);
    let cb = carry_bits(v, k);
    assert(cb & 0 == 0) by (bit_vector);
}

/// Combining the two phases gives the phrase bits.
pub proof fn lemma_combine(a: u16, b: u16, r: u16)
    ensures
        (a & r) | (b & r) == r & (a | b),
{
    assert((a & r) | (b & r) == r & (a | b)) by (bit_vector);
}

/// `v` rotated up `k` places within 16 bits.
pub fn rotl_u16(v: u16, k: u16) -> (r: u16)
    requires
        k < 16,
    ensures
        r == rotl_bits(v, k),
{
    if k == 0 {
        v
    } else {
        (v << k) | (v >> (16 - k))
    }
}

/// The word-level part of the kernel state through one step.
proof fn lemma_step_extra(
    first: bool,
    l: Seq<u64>,
    r: Seq<u64>,
    c: int,
    k: u16,
    li: int,
    ri: int,
    p: Seq<u64>,
    cr: Seq<u64>,
    li2: int,
    ri2: int,
    p2: Seq<u64>,
    cr2: Seq<u64>,
)
    requires
        sorted_keys(l),
        sorted_keys(r),
        k < 16,
        0 <= c,
        kernel_inv(first, l, r, c, k, li, ri, p, cr),
        li < l.len(),
        ri < r.len(),
        ({
            let kl = key_of(l[li]) + c;
            let kr = key_of(r[ri]);
            let vl = bits_of(l[li]);
            let carried = if first && carry_bits(vl, k) != 0 && kl + 1 < key_limit() {
                cr.push(crate::packed::word(kl + 1, vl))
            } else {
                cr
            };
            if kl == kr {
                &&& li2 == li + 1
                &&& ri2 == ri + 1
                &&& p2 == p.push(crate::packed::word(kl, pair_bits(first, vl, bits_of(r[ri]), k)))
                &&& cr2 == carried
            } else if kl < kr {
                &&& li2 == li + 1
                &&& ri2 == ri
                &&& p2 == p
                &&& cr2 == carried
            } else {
                &&& li2 == li
                &&& ri2 == ri + 1
                &&& p2 == p
                &&& cr2 == cr
            }
        }),
    ensures
        kernel_extra(first, l, r, c, k, li2, ri2, p2, cr2),
{
    let kl = key_of(l[li]) + c;
    let kr = key_of(r[ri]);
    let vl = bits_of(l[li]);
    let lb = left_bound(l, c, li);
    let rb = right_bound(r, ri);
    let m = min_int(lb, rb);
    let m2 = min_int(left_bound(l, c, li2), right_bound(r, ri2));
    if li2 == li + 1 && li + 1 < l.len() {
        assert(key_of(l[li]) < key_of(l[li + 1]));
    }
    if ri2 == ri + 1 && ri + 1 < r.len() {
        assert(key_of(r[ri]) < key_of(r[ri + 1]));
    }
    if kl == kr {
        let w = crate::packed::word(kl, pair_bits(first, vl, bits_of(r[ri]), k));
        crate::packed::lemma_word_of(kl, pair_bits(first, vl, bits_of(r[ri]), k));
        assert(key_of(w) == kl);
        assert forall|x: int| 0 <= x < p2.len() implies common_key(l, r, c, key_of(#[trigger] p2[x])) by {
            if x < p.len() {
                assert(p2[x] == p[x]);
            } else {
                assert(p2[x] == w);
                assert(key_of(l[li]) + c == key_of(w) && key_of(r[ri]) == key_of(w));
            }
        }
    }
    assert forall|i: int, j: int|
        0 <= i < l.len() && 0 <= j < r.len() && key_of(#[trigger] l[i]) + c == key_of(
            #[trigger] r[j],
        ) && key_of(r[j]) < m2 implies has_key(p2, key_of(r[j])) by {
        let kk = key_of(r[j]);
        if kk < m {
            let x = choose|x: int| 0 <= x < p.len() && key_of(#[trigger] p[x]) == kk;
            assert(p2[x] == p[x]);
        } else if kl == kr && kk == kl {
            assert(key_of(p2[p.len() as int]) == kk);
        } else {
            // no common key lies in the gap the step walked over
            if kl <= kr {
                if j < ri {
                    assert(key_of(r[j]) < lb);
                } else if j > ri {
                    assert(key_of(r[ri]) < key_of(r[j]));
                    if kl == kr && ri + 1 < r.len() && j > ri + 1 {
                        assert(key_of(r[ri + 1]) < key_of(r[j]));
                    }
                }
            } else {
                if i < li {
                    assert(key_of(l[i]) + c < rb);
                } else if i > li {
                    assert(key_of(l[li]) < key_of(l[i]));
                }
            }
        }
    }
    if first {
        if kl <= kr {
            let t = l.take(li + 1);
            assert(t.drop_last() =~= l.take(li));
            assert(t.last() == l[li]);
            assert(key_of(r[ri]) <= key_of(r.last())) by {
                if ri < r.len() - 1 {
                    assert(key_of(r[ri]) < key_of(r[r.len() - 1]));
                }
            }
            assert forall|x: int| 0 <= x < li2 implies r.len() > 0 && key_of(#[trigger] l[x]) + c
                <= key_of(r.last()) by {
                if x < li {
                    assert(consumed_below(l, r, c, li));
                }
            }
        }
    }
}

/// Keeps the kernel state through one step of the two-pointer walk.
proof fn lemma_step(
    first: bool,
    l: Seq<u64>,
    r: Seq<u64>,
    c: int,
    k: u16,
    li: int,
    ri: int,
    p: Seq<u64>,
    cr: Seq<u64>,
    li2: int,
    ri2: int,
    p2: Seq<u64>,
    cr2: Seq<u64>,
)
    requires
        sorted_keys(l),
        sorted_keys(r),
        k < 16,
        0 <= c,
        kernel_inv(first, l, r, c, k, li, ri, p, cr),
        li < l.len(),
        ri < r.len(),
        ({
            let kl = key_of(l[li]) + c;
            let kr = key_of(r[ri]);
            let vl = bits_of(l[li]);
            let carried = if first && carry_bits(vl, k) != 0 && kl + 1 < key_limit() {
                cr.push(crate::packed::word(kl + 1, vl))
            } else {
                cr
            };
            if kl == kr {
                &&& li2 == li + 1
                &&& ri2 == ri + 1
                &&& p2 == p.push(crate::packed::word(kl, pair_bits(first, vl, bits_of(r[ri]), k)))
                &&& cr2 == carried
            } else if kl < kr {
                &&& li2 == li + 1
                &&& ri2 == ri
                &&& p2 == p
                &&& cr2 == carried
            } else {
                &&& li2 == li
                &&& ri2 == ri + 1
                &&& p2 == p
                &&& cr2 == cr
            }
        }),
    ensures
        kernel_inv(first, l, r, c, k, li2, ri2, p2, cr2),
{
    lemma_step_extra(first, l, r, c, k, li, ri, p, cr, li2, ri2, p2, cr2);
    let kl = key_of(l[li]) + c;
    let kr = key_of(r[ri]);
    let vl = bits_of(l[li]);
    let lb2 = left_bound(l, c, li2);
    let rb2 = right_bound(r, ri2);
    lemma_bm_at(l, li);
    lemma_bm_at(r, ri);
    lemma_bits_facts(vl, bits_of(r[ri]), k);
    if li2 == li + 1 && li + 1 < l.len() {
        assert(key_of(l[li]) < key_of(l[li + 1]));
    }
    if ri2 == ri + 1 && ri + 1 < r.len() {
        assert(key_of(r[ri]) < key_of(r[ri + 1]));
    }
    // primary output
    if kl == kr {
        let w = crate::packed::word(kl, pair_bits(first, vl, bits_of(r[ri]), k));
        crate::packed::lemma_word_of(kl, pair_bits(first, vl, bits_of(r[ri]), k));
        assert forall|x: int, y: int| 0 <= x < y < p2.len() implies key_of(#[trigger] p2[x])
            < key_of(#[trigger] p2[y]) by {
            if y < p.len() {
                assert(key_of(p[x]) < key_of(p[y]));
            } else {
                assert(key_of(p[x]) < kl);
            }
        }
        assert forall|x: int| 0 <= x < p2.len() implies key_of(#[trigger] p2[x]) < min_int(
            lb2,
            rb2,
        ) by {
            if x < p.len() {
                assert(key_of(p[x]) < kl);
            }
        }
    }
    assert forall|key: int| key < min_int(lb2, rb2) implies #[trigger] bm(p2, key) == phase_bits(
        first,
        l,
        r,
        c,
        k,
        key,
    ) by {
        if kl == kr {
            let w = crate::packed::word(kl, pair_bits(first, vl, bits_of(r[ri]), k));
            lemma_bm_push(p, w, key);
        }
        if key < min_int(left_bound(l, c, li), right_bound(r, ri)) {
            if kl == kr {
                assert(key != kl);
            }
        } else if kl == kr && key == kl {
        } else {
            // a key in the gap that the step walked over
            if kl <= kr {
                // the left word was consumed, the right side has no such key
                if kl == kr {
                    lemma_bm_gap(r, ri, key);
                } else {
                    if ri > 0 {
                        assert(key_of(r[ri - 1]) < kl);
                    }
                    lemma_bm_gap(r, ri - 1, key);
                }
                lemma_bits_facts(bm(l, key - c), 0, k);
            } else {
                if li > 0 {
                    assert(key_of(l[li - 1]) + c < kr);
                }
                lemma_bm_gap(l, li - 1, key - c);
                lemma_bits_facts(0, bm(r, key), k);
            }
            if kl == kr {
                lemma_bm_above(p, key);
            } else {
                lemma_bm_above(p, key);
            }
        }
    }
    assert forall|x: int| 0 <= x < ri2 implies key_of(#[trigger] r[x]) < lb2 by {
        if x < ri {
            assert(key_of(r[x]) < kl);
        }
    }
    assert forall|x: int| 0 <= x < li2 implies key_of(#[trigger] l[x]) + c < rb2 by {
        if x < li {
            assert(key_of(l[x]) + c < kr);
        }
    }
    if first {
        if kl <= kr {
            let carried = cr2;
            if carry_bits(vl, k) != 0 && kl + 1 < key_limit() {
                crate::packed::lemma_word_of(kl + 1, vl);
            }
            assert forall|x: int, y: int| 0 <= x < y < cr2.len() implies key_of(
                #[trigger] cr2[x],
            ) < key_of(#[trigger] cr2[y]) by {
                if y < cr.len() {
                    assert(key_of(cr[x]) < key_of(cr[y]));
                } else {
                    assert(key_of(cr[x]) <= kl);
                }
            }
            assert forall|x: int| 0 <= x < cr2.len() implies key_of(#[trigger] cr2[x]) <= lb2 by {
                if x < cr.len() {
                    assert(key_of(cr[x]) <= kl);
                }
            }
            assert forall|key: int| key <= lb2 && key < key_limit() implies carry_bits(
                #[trigger] bm(cr2, key),
                k,
            ) == carry_bits(bm(l, key - c - 1), k) by {
                if carry_bits(vl, k) != 0 && kl + 1 < key_limit() {
                    lemma_bm_push(cr, crate::packed::word(kl + 1, vl), key);
                }
                if key <= kl {
                } else if key == kl + 1 {
                    lemma_bm_above(cr, key);
                    lemma_bits_facts(0, 0, k);
                } else {
                    lemma_bm_above(cr, key);
                    lemma_bm_gap(l, li, key - c - 1);
                    lemma_bits_facts(0, 0, k);
                }
            }
        }
    }
}

/// At the end of a walk the kernel state gives the whole phase.
proof fn lemma_exit(
    first: bool,
    l: Seq<u64>,
    r: Seq<u64>,
    c: int,
    k: u16,
    li: int,
    ri: int,
    p: Seq<u64>,
    cr: Seq<u64>,
)
    requires
        sorted_keys(l),
        sorted_keys(r),
        k < 16,
        0 <= c,
        kernel_inv(first, l, r, c, k, li, ri, p, cr),
        li == l.len() || ri == r.len(),
    ensures
        phase_done(first, l, r, c, k, p, cr),
{
    let lb = left_bound(l, c, li);
    let rb = right_bound(r, ri);
    assert forall|key: int| #[trigger] bm(p, key) == phase_bits(first, l, r, c, k, key) by {
        if key >= min_int(lb, rb) {
            assert forall|x: int| 0 <= x < p.len() implies key_of(#[trigger] p[x]) != key by {}
            crate::packed::lemma_bm_absent(p, key);
            if li == l.len() {
                assert forall|x: int| 0 <= x < l.len() implies key_of(#[trigger] l[x]) != key
                    - c by {}
                crate::packed::lemma_bm_absent(l, key - c);
                lemma_bits_facts(0, bm(r, key), k);
            } else {
                assert forall|x: int| 0 <= x < r.len() implies key_of(#[trigger] r[x]) != key by {}
                crate::packed::lemma_bm_absent(r, key);
                lemma_bits_facts(bm(l, key - c), 0, k);
            }
        }
    }
    if first {
        assert forall|key: int| key < key_limit() && bm(r, key) != 0 implies carry_bits(
            #[trigger] bm(cr, key),
            k,
        ) == carry_bits(bm(l, key - c - 1), k) by {
            if li < l.len() {
                if key >= lb {
                    assert forall|x: int| 0 <= x < r.len() implies key_of(#[trigger] r[x])
                        != key by {}
                    crate::packed::lemma_bm_absent(r, key);
                }
            }
        }
    }
}

/// What a finished phase guarantees: the primary output is exact, and in phase
/// one the carry output is exact under every key of the right list.
pub open spec fn phase_done(
    first: bool,
    l: Seq<u64>,
    r: Seq<u64>,
    c: int,
    k: u16,
    p: Seq<u64>,
    cr: Seq<u64>,
) -> bool {
    &&& sorted_keys(p)
    &&& forall|key: int| #[trigger] bm(p, key) == phase_bits(first, l, r, c, k, key)
    &&& forall|x: int| 0 <= x < p.len() ==> common_key(l, r, c, key_of(#[trigger] p[x]))
    &&& forall|i: int, j: int|
        0 <= i < l.len() && 0 <= j < r.len() && key_of(#[trigger] l[i]) + c == key_of(
            #[trigger] r[j],
        ) ==> has_key(p, key_of(r[j]))
    &&& first ==> exists|m: int|
        0 <= m <= l.len() && cr == #[trigger] carries_of(l.take(m), c, k) && consumed_below(l, r, c, m)
            && forall|x: int| m <= x < l.len() ==> r.len() == 0 || key_of(#[trigger] l[x]) + c > key_of(r.last())
    &&& first ==> {
        &&& sorted_keys(cr)
        &&& forall|key: int|
            key < key_limit() && bm(r, key) != 0 ==> carry_bits(#[trigger] bm(cr, key), k)
                == carry_bits(bm(l, key - c - 1), k)
    }
}

/// Seals the set of kernels to this crate's own.
pub trait IntersectSeal {

}

/// The two-phase intersection, driven by one kernel.
pub trait Intersect: IntersectSeal {
    /// Walks both lists from `(lhs_i, rhs_i)` until one of them is exhausted,
    /// adding to the primary output and, in phase one, to the carry output.
    fn inner_intersect(
        first: bool,
        lhs: &[u64],
        rhs: &[u64],
        lhs_i: &mut usize,
        rhs_i: &mut usize,
        packed_result: &mut Vec<u64>,
        msb_packed_result: &mut Vec<u64>,
        add_to_group: u64,
        lhs_len: u16,
        msb_mask: u16,
        lsb_mask: u16,
    )
        requires
            sorted_keys(lhs@),
            sorted_keys(rhs@),
            kernel_args(first, add_to_group, lhs_len, msb_mask, lsb_mask),
            kernel_inv(
                first,
                lhs@,
                rhs@,
                add_to_group as int / 65536,
                lhs_len,
                *old(lhs_i) as int,
                *old(rhs_i) as int,
                old(packed_result)@,
                old(msb_packed_result)@,
            ),
        ensures
            kernel_inv(
                first,
                lhs@,
                rhs@,
                add_to_group as int / 65536,
                lhs_len,
                *final(lhs_i) as int,
                *final(rhs_i) as int,
                final(packed_result)@,
                final(msb_packed_result)@,
            ),
            *final(lhs_i) == lhs@.len() || *final(rhs_i) == rhs@.len(),
            !first ==> final(msb_packed_result)@ == old(msb_packed_result)@,
    ;

    /// Capacity to reserve for the primary output.
    fn intersection_buffer_size(lhs: &[u64], rhs: &[u64]) -> (r: usize)
        requires
            lhs@.len() + 9 <= usize::MAX,
        ensures
            r >= if lhs@.len() < rhs@.len() {
                lhs@.len()
            } else {
                rhs@.len()
            },
    ;
}

/// Allows a kernel to be chosen for searching.
pub trait Intersection: Intersect {

}

/// Runs one phase with kernel `I`: phase one (`first`) on the left and right
/// lists, phase two on the carry words of phase one and the right list.
///
/// The primary output has one word for each key common to both lists (the
/// left keys moved `lhs_len / 16` groups ahead), in key order, with the bits
/// the phase keeps (possibly none). In phase one the carry output holds, in
/// key order, a word one group further on for each left word up to the last
/// right key whose top `lhs_len % 16` bits are not all zero; in phase two it
/// is empty.
pub fn phase<I: Intersect>(first: bool, lhs: &[u64], rhs: &[u64], lhs_len: u32) -> (r: (
    Vec<u64>,
    Vec<u64>,
))
    requires
        sorted_keys(lhs@),
        sorted_keys(rhs@),
    ensures
        phase_done(
            first,
            lhs@,
            rhs@,
            if first {
                group_shift(lhs_len)
            } else {
                0
            },
            bit_shift(lhs_len),
            r.0@,
            r.1@,
        ),
        !first ==> r.1@.len() == 0,
{
    let mut lhs_i: usize = 0;
    let mut rhs_i: usize = 0;
    let buffer_size = if lhs.len() < usize::MAX - 16 {
        I::intersection_buffer_size(lhs, rhs)
    } else {
        0
    };
    let mut packed_result: Vec<u64> = Vec::with_capacity(buffer_size);
    let mut msb_packed_result: Vec<u64> = if first {
        Vec::with_capacity(lhs.len())
    } else {
        Vec::new()
    };
    let add_to_group: u64 = if first {
        (lhs_len / 16) as u64 * ADD_ONE_GROUP
    } else {
        0
    };
    let k = (lhs_len % 16) as u16;
    let msb_mask: u16 = !(0xFFFFu16 >> k);
    let lsb_mask: u16 = !(0xFFFFu16 << k);
    proof {
        assert(add_to_group as int / 65536 == if first {
            group_shift(lhs_len)
        } else {
            0
        });
        assert forall|key: int| key < min_int(left_bound(lhs@, add_to_group as int / 65536, 0), right_bound(rhs@, 0)) implies #[trigger] bm(Seq::<u64>::empty(), key)
            == phase_bits(first, lhs@, rhs@, add_to_group as int / 65536, k, key) by {
            if lhs@.len() > 0 && rhs@.len() > 0 {
                lemma_bm_gap(lhs@, -1, key - add_to_group as int / 65536);
                lemma_bits_facts(0, bm(rhs@, key), k);
            } else if lhs@.len() == 0 {
                crate::packed::lemma_bm_absent(lhs@, key - add_to_group as int / 65536);
                lemma_bits_facts(0, bm(rhs@, key), k);
            } else {
                crate::packed::lemma_bm_absent(rhs@, key);
                lemma_bits_facts(bm(lhs@, key - add_to_group as int / 65536), 0, k);
            }
        }
        if first {
            assert forall|key: int| key <= left_bound(lhs@, add_to_group as int / 65536, 0) && key < key_limit() implies carry_bits(
                #[trigger] bm(Seq::<u64>::empty(), key),
                k,
            ) == carry_bits(bm(lhs@, key - add_to_group as int / 65536 - 1), k) by {
                lemma_bm_gap(lhs@, -1, key - add_to_group as int / 65536 - 1);
                lemma_bits_facts(0, 0, k);
            }
        }
    }
    I::inner_intersect(
        first,
        lhs,
        rhs,
        &mut lhs_i,
        &mut rhs_i,
        &mut packed_result,
        &mut msb_packed_result,
        add_to_group,
        k,
        msb_mask,
        lsb_mask,
    );
    proof {
        lemma_exit(
            first,
            lhs@,
            rhs@,
            add_to_group as int / 65536,
            k,
            lhs_i as int,
            rhs_i as int,
            packed_result@,
            msb_packed_result@,
        );
    }
    (packed_result, msb_packed_result)
}

/// One comparison of the two-pointer walk: the smaller key advances, equal
/// keys produce a primary word (and, in phase one, a carry word when the left
/// bits spill over).
fn naive_step(
    first: bool,
    lhs: &[u64],
    rhs: &[u64],
    lhs_i: &mut usize,
    rhs_i: &mut usize,
    packed_result: &mut Vec<u64>,
    msb_packed_result: &mut Vec<u64>,
    add_to_group: u64,
    lhs_len: u16,
    msb_mask: u16,
    lsb_mask: u16,
)
    requires
        sorted_keys(lhs@),
        sorted_keys(rhs@),
        kernel_args(first, add_to_group, lhs_len, msb_mask, lsb_mask),
        kernel_inv(
            first,
            lhs@,
            rhs@,
            add_to_group as int / 65536,
            lhs_len,
            *old(lhs_i) as int,
            *old(rhs_i) as int,
            old(packed_result)@,
            old(msb_packed_result)@,
        ),
        *old(lhs_i) < lhs@.len(),
        *old(rhs_i) < rhs@.len(),
    ensures
        kernel_inv(
            first,
            lhs@,
            rhs@,
            add_to_group as int / 65536,
            lhs_len,
            *final(lhs_i) as int,
            *final(rhs_i) as int,
            final(packed_result)@,
            final(msb_packed_result)@,
        ),
        *old(lhs_i) <= *final(lhs_i),
        *old(rhs_i) <= *final(rhs_i),
        *old(lhs_i) + *old(rhs_i) < *final(lhs_i) + *final(rhs_i),
        !first ==> final(msb_packed_result)@ == old(msb_packed_result)@,
{
    let ghost c: int = add_to_group as int / 65536;
    let ghost li = *lhs_i as int;
    let ghost ri = *rhs_i as int;
    let ghost p = packed_result@;
    let ghost cr = msb_packed_result@;
    let lhs_packed = lhs[*lhs_i];
    let lhs_key = clear_values(lhs_packed);
    let lhs_values = unpack_values(lhs_packed);
    let rhs_packed = rhs[*rhs_i];
    let rhs_doc_id_group = clear_values(rhs_packed);
    let rhs_values = unpack_values(rhs_packed);
    proof {
        lemma_bits_facts(lhs_values, rhs_values, lhs_len);
    }
    if lhs_key > u64::MAX - add_to_group {
        // moved past every key there is
        *rhs_i = *rhs_i + 1;
        proof {
            lemma_step(first, lhs@, rhs@, c, lhs_len, li, ri, p, cr, li, ri + 1, p, cr);
        }
    } else {
        let lhs_doc_id_group = lhs_key + add_to_group;
        let ghost kl = key_of(lhs_packed) + c;
        assert(lhs_doc_id_group == kl * 65536);
        let carry = first && lhs_values & msb_mask != 0 && lhs_doc_id_group < 0xFFFF_FFFF_FFFF_0000;
        if lhs_doc_id_group == rhs_doc_id_group {
            let intersection = if first {
                (lhs_values << lhs_len) & rhs_values
            } else {
                rotl_u16(lhs_values, lhs_len) & lsb_mask & rhs_values
            };
            proof {
                lemma_or_low(lhs_doc_id_group, intersection as u64);
            }
            packed_result.push(lhs_doc_id_group | intersection as u64);
            if carry {
                proof {
                    lemma_or_low((lhs_doc_id_group + ADD_ONE_GROUP) as u64, lhs_values as u64);
                }
                msb_packed_result.push((lhs_doc_id_group + ADD_ONE_GROUP) | lhs_values as u64);
            }
            *lhs_i = *lhs_i + 1;
            *rhs_i = *rhs_i + 1;
            proof {
                lemma_step(
                    first,
                    lhs@,
                    rhs@,
                    c,
                    lhs_len,
                    li,
                    ri,
                    p,
                    cr,
                    li + 1,
                    ri + 1,
                    packed_result@,
                    msb_packed_result@,
                );
            }
        } else if lhs_doc_id_group > rhs_doc_id_group {
            *rhs_i = *rhs_i + 1;
            proof {
                lemma_step(first, lhs@, rhs@, c, lhs_len, li, ri, p, cr, li, ri + 1, p, cr);
            }
        } else {
            if carry {
                proof {
                    lemma_or_low((lhs_doc_id_group + ADD_ONE_GROUP) as u64, lhs_values as u64);
                }
                msb_packed_result.push((lhs_doc_id_group + ADD_ONE_GROUP) | lhs_values as u64);
            }
            *lhs_i = *lhs_i + 1;
            proof {
                lemma_step(
                    first,
                    lhs@,
                    rhs@,
                    c,
                    lhs_len,
                    li,
                    ri,
                    p,
                    cr,
                    li + 1,
                    ri,
                    p,
                    msb_packed_result@,
                );
            }
        }
    }
}

/// Naive kernel: a two-pointer walk that advances the smaller key.
pub struct NaiveIntersect;

impl IntersectSeal for NaiveIntersect {

}

impl Intersection for NaiveIntersect {

}

impl Intersect for NaiveIntersect {
    fn inner_intersect(
        first: bool,
        lhs: &[u64],
        rhs: &[u64],
        lhs_i: &mut usize,
        rhs_i: &mut usize,
        packed_result: &mut Vec<u64>,
        msb_packed_result: &mut Vec<u64>,
        add_to_group: u64,
        lhs_len: u16,
        msb_mask: u16,
        lsb_mask: u16,
    ) {
        let ghost msb0 = msb_packed_result@;
        while *lhs_i < lhs.len() && *rhs_i < rhs.len()
            invariant
                sorted_keys(lhs@),
                sorted_keys(rhs@),
                kernel_args(first, add_to_group, lhs_len, msb_mask, lsb_mask),
                kernel_inv(
                    first,
                    lhs@,
                    rhs@,
                    add_to_group as int / 65536,
                    lhs_len,
                    *lhs_i as int,
                    *rhs_i as int,
                    packed_result@,
                    msb_packed_result@,
                ),
                !first ==> msb_packed_result@ == msb0,
            decreases lhs@.len() - *lhs_i + rhs@.len() - *rhs_i,
        {
            naive_step(
                first,
                lhs,
                rhs,
                lhs_i,
                rhs_i,
                packed_result,
                msb_packed_result,
                add_to_group,
                lhs_len,
                msb_mask,
                lsb_mask,
            );
        }
    }

    fn intersection_buffer_size(lhs: &[u64], rhs: &[u64]) -> (r: usize) {
        if lhs.len() < rhs.len() {
            lhs.len()
        } else {
            rhs.len()
        }
    }
}

/// Passing over right words whose keys are below the next left key keeps the
/// kernel state.
proof fn lemma_walk_right(
    first: bool,
    l: Seq<u64>,
    r: Seq<u64>,
    c: int,
    k: u16,
    li: int,
    ri: int,
    ri2: int,
    p: Seq<u64>,
    cr: Seq<u64>,
)
    requires
        sorted_keys(l),
        sorted_keys(r),
        k < 16,
        0 <= c,
        kernel_inv(first, l, r, c, k, li, ri, p, cr),
        li < l.len(),
        ri <= ri2 <= r.len(),
        forall|y: int| ri <= y < ri2 ==> key_of(#[trigger] r[y]) < key_of(l[li]) + c,
    ensures
        kernel_inv(first, l, r, c, k, li, ri2, p, cr),
    decreases ri2 - ri,
{
    if ri < ri2 {
        assert(key_of(r[ri]) < key_of(l[li]) + c);
        lemma_step(first, l, r, c, k, li, ri, p, cr, li, ri + 1, p, cr);
        lemma_walk_right(first, l, r, c, k, li, ri + 1, ri2, p, cr);
    }
}

/// In phase two, passing over left words whose keys are below the next right
/// key keeps the kernel state.
proof fn lemma_walk_left(
    l: Seq<u64>,
    r: Seq<u64>,
    c: int,
    k: u16,
    li: int,
    li2: int,
    ri: int,
    p: Seq<u64>,
    cr: Seq<u64>,
)
    requires
        sorted_keys(l),
        sorted_keys(r),
        k < 16,
        0 <= c,
        kernel_inv(false, l, r, c, k, li, ri, p, cr),
        ri < r.len(),
        li <= li2 <= l.len(),
        forall|x: int| li <= x < li2 ==> key_of(#[trigger] l[x]) + c < key_of(r[ri]),
    ensures
        kernel_inv(false, l, r, c, k, li2, ri, p, cr),
    decreases li2 - li,
{
    if li < li2 {
        assert(key_of(l[li]) + c < key_of(r[ri]));
        lemma_step(false, l, r, c, k, li, ri, p, cr, li + 1, ri, p, cr);
        lemma_walk_left(l, r, c, k, li + 1, li2, ri, p, cr);
    }
}

/// Exponential search from `start`: the last probed index whose cleared key
/// is below `bound` (or `start` when none is).
fn gallop(s: &[u64], start: usize, bound: u64) -> (r: usize)
    requires
        sorted_keys(s@),
        start < s@.len(),
    ensures
        start <= r < s@.len(),
        forall|x: int| start <= x < r ==> key_of(#[trigger] s@[x]) * 65536 < bound,
{
    let mut last = start;
    let mut pos = start;
    let mut delta: usize = 1;
    while pos < s.len() && clear_values(s[pos]) < bound
        invariant
            sorted_keys(s@),
            start <= last <= pos,
            last < s@.len(),
            pos > start ==> last < pos && key_of(s@[last as int]) * 65536 < bound,
            pos == start ==> last == start,
            delta >= 1,
        decreases s@.len() - pos,
    {
        last = pos;
        if delta < s.len() - pos {
            pos = pos + delta;
        } else {
            pos = s.len();
        }
        if delta < usize::MAX / 2 {
            delta = delta * 2;
        }
    }
    proof {
        assert forall|x: int| start <= x < last implies key_of(#[trigger] s@[x]) * 65536 < bound by {
            assert(key_of(s@[x]) < key_of(s@[last as int]));
        }
    }
    last
}

/// Galloping walk: runs of right words below the next left key are passed
/// over by exponential search, and in phase two runs of left words below the
/// next right key as well.
fn gallop_walk(
    first: bool,
    lhs: &[u64],
    rhs: &[u64],
    lhs_i: &mut usize,
    rhs_i: &mut usize,
    packed_result: &mut Vec<u64>,
    msb_packed_result: &mut Vec<u64>,
    add_to_group: u64,
    lhs_len: u16,
    msb_mask: u16,
    lsb_mask: u16,
)
    requires
        sorted_keys(lhs@),
        sorted_keys(rhs@),
        kernel_args(first, add_to_group, lhs_len, msb_mask, lsb_mask),
        kernel_inv(
            first,
            lhs@,
            rhs@,
            add_to_group as int / 65536,
            lhs_len,
            *old(lhs_i) as int,
            *old(rhs_i) as int,
            old(packed_result)@,
            old(msb_packed_result)@,
        ),
    ensures
        kernel_inv(
            first,
            lhs@,
            rhs@,
            add_to_group as int / 65536,
            lhs_len,
            *final(lhs_i) as int,
            *final(rhs_i) as int,
            final(packed_result)@,
            final(msb_packed_result)@,
        ),
        *final(lhs_i) == lhs@.len() || *final(rhs_i) == rhs@.len(),
        !first ==> final(msb_packed_result)@ == old(msb_packed_result)@,
{
    let ghost c: int = add_to_group as int / 65536;
    let ghost msb0 = msb_packed_result@;
    while *lhs_i < lhs.len() && *rhs_i < rhs.len()
        invariant
            sorted_keys(lhs@),
            sorted_keys(rhs@),
            kernel_args(first, add_to_group, lhs_len, msb_mask, lsb_mask),
            c == add_to_group as int / 65536,
            kernel_inv(
                first,
                lhs@,
                rhs@,
                c,
                lhs_len,
                *lhs_i as int,
                *rhs_i as int,
                packed_result@,
                msb_packed_result@,
            ),
            !first ==> msb_packed_result@ == msb0,
        decreases lhs@.len() - *lhs_i + rhs@.len() - *rhs_i,
    {
        if !first {
            let bound = clear_values(rhs[*rhs_i]);
            let li2 = gallop(lhs, *lhs_i, bound);
            proof {
                lemma_walk_left(
                    lhs@,
                    rhs@,
                    c,
                    lhs_len,
                    *lhs_i as int,
                    li2 as int,
                    *rhs_i as int,
                    packed_result@,
                    msb_packed_result@,
                );
            }
            *lhs_i = li2;
        }
        let lhs_key = clear_values(lhs[*lhs_i]);
        if lhs_key <= u64::MAX - add_to_group {
            let ri2 = gallop(rhs, *rhs_i, lhs_key + add_to_group);
            proof {
                lemma_walk_right(
                    first,
                    lhs@,
                    rhs@,
                    c,
                    lhs_len,
                    *lhs_i as int,
                    *rhs_i as int,
                    ri2 as int,
                    packed_result@,
                    msb_packed_result@,
                );
            }
            *rhs_i = ri2;
        }
        naive_step(
            first,
            lhs,
            rhs,
            lhs_i,
            rhs_i,
            packed_result,
            msb_packed_result,
            add_to_group,
            lhs_len,
            msb_mask,
            lsb_mask,
        );
    }
}

/// Galloping kernel for phase one, used when one list is much longer than the
/// other: it passes over runs of right words by exponential search, and walks
/// the left words one by one since each of them may carry.
pub struct GallopIntersectFirst;

impl IntersectSeal for GallopIntersectFirst {

}

impl Intersection for GallopIntersectFirst {

}

impl Intersect for GallopIntersectFirst {
    fn inner_intersect(
        first: bool,
        lhs: &[u64],
        rhs: &[u64],
        lhs_i: &mut usize,
        rhs_i: &mut usize,
        packed_result: &mut Vec<u64>,
        msb_packed_result: &mut Vec<u64>,
        add_to_group: u64,
        lhs_len: u16,
        msb_mask: u16,
        lsb_mask: u16,
    ) {
        gallop_walk(
            first,
            lhs,
            rhs,
            lhs_i,
            rhs_i,
            packed_result,
            msb_packed_result,
            add_to_group,
            lhs_len,
            msb_mask,
            lsb_mask,
        );
    }

    fn intersection_buffer_size(lhs: &[u64], rhs: &[u64]) -> (r: usize) {
        if lhs.len() < rhs.len() {
            lhs.len()
        } else {
            rhs.len()
        }
    }
}

/// Galloping kernel for phase two, used when the carry words and the right
/// list differ much in length: both sides pass over runs by exponential search.
pub struct GallopIntersectSecond;

impl IntersectSeal for GallopIntersectSecond {

}

impl Intersection for GallopIntersectSecond {

}

impl Intersect for GallopIntersectSecond {
    fn inner_intersect(
        first: bool,
        lhs: &[u64],
        rhs: &[u64],
        lhs_i: &mut usize,
        rhs_i: &mut usize,
        packed_result: &mut Vec<u64>,
        msb_packed_result: &mut Vec<u64>,
        add_to_group: u64,
        lhs_len: u16,
        msb_mask: u16,
        lsb_mask: u16,
    ) {
        gallop_walk(
            first,
            lhs,
            rhs,
            lhs_i,
            rhs_i,
            packed_result,
            msb_packed_result,
            add_to_group,
            lhs_len,
            msb_mask,
            lsb_mask,
        );
    }

    fn intersection_buffer_size(lhs: &[u64], rhs: &[u64]) -> (r: usize) {
        if lhs.len() < rhs.len() {
            lhs.len()
        } else {
            rhs.len()
        }
    }
}

/// Two results of the phrase intersection of the same lists are the same
/// list, word for word: every kernel yields identical output.
pub proof fn lemma_kernels_agree(l: Seq<u64>, r: Seq<u64>, n: u32, a: Seq<u64>, b: Seq<u64>)
    requires
        is_phrase_result(l, r, n, a),
        is_phrase_result(l, r, n, b),
    ensures
        a == b,
{
    assert forall|key: int| #[trigger] bm(a, key) == bm(b, key) by {
        assert(bm(a, key) == phrase_bits(l, r, n, key));
        assert(bm(b, key) == phrase_bits(l, r, n, key));
    }
    crate::packed::lemma_canonical(a, b);
}

/// A sorted list whose keys are all keys of a sorted list `b` is no longer
/// than `b`.
pub proof fn lemma_sub_keys_shorter(a: Seq<u64>, b: Seq<u64>)
    requires
        sorted_keys(a),
        sorted_keys(b),
        forall|i: int| 0 <= i < a.len() ==> has_key(b, key_of(#[trigger] a[i])),
    ensures
        a.len() <= b.len(),
{
    if a.len() > 0 {
        lemma_key_index_grows(a, b, a.len() - 1);
    }
}

proof fn lemma_key_index_grows(a: Seq<u64>, b: Seq<u64>, i: int)
    requires
        sorted_keys(a),
        sorted_keys(b),
        forall|i: int| 0 <= i < a.len() ==> has_key(b, key_of(#[trigger] a[i])),
        0 <= i < a.len(),
    ensures
        forall|j: int| 0 <= j < b.len() && key_of(b[j]) == key_of(a[i]) ==> j >= i,
        i < b.len(),
    decreases i,
{
    assert(has_key(b, key_of(a[i])));
    let j0 = choose|j: int| 0 <= j < b.len() && key_of(#[trigger] b[j]) == key_of(a[i]);
    if i > 0 {
        lemma_key_index_grows(a, b, i - 1);
        assert(key_of(a[i - 1]) < key_of(a[i]));
        assert(has_key(b, key_of(a[i - 1])));
        let jp = choose|j: int| 0 <= j < b.len() && key_of(#[trigger] b[j]) == key_of(a[i - 1]);
        assert forall|j: int| 0 <= j < b.len() && key_of(b[j]) == key_of(a[i]) implies j >= i by {
            if j <= jp {
                if j < jp {
                    assert(key_of(b[j]) < key_of(b[jp]));
                }
            }
        }
    }
}

/// Every key of a phrase result is a key of the right list, so the result is
/// no longer than the right list.
pub proof fn lemma_phrase_result_shorter(l: Seq<u64>, r: Seq<u64>, n: u32, out: Seq<u64>)
    requires
        sorted_keys(r),
        is_phrase_result(l, r, n, out),
    ensures
        out.len() <= r.len(),
{
    assert forall|i: int| 0 <= i < out.len() implies has_key(r, key_of(#[trigger] out[i])) by {
        lemma_bm_at(out, i);
        let key = key_of(out[i]);
        assert(bm(out, key) == phrase_bits(l, r, n, key));
        if bm(r, key) == 0 {
            let x = shl_bits(bm(l, key - group_shift(n)), bit_shift(n)) | carry_bits(
                bm(l, key - group_shift(n) - 1),
                bit_shift(n),
            );
            assert(0u16 & x == 0) by (bit_vector);
        }
        crate::packed::lemma_bm_present(r, key);
    }
    lemma_sub_keys_shorter(out, r);
}

} // verus!
