//! Block kernel: compares the keys of eight words of each list at a time,
//! emits the matching lanes, and advances the block whose last key is the
//! smaller (both on a tie). The words left over are handled by the naive
//! kernel.
use crate::intersect::{
    carries_of, common_key, consumed_below, has_key, carry_bits, kernel_args, kernel_inv, key_limit, left_bound, lemma_bits_facts, min_int,
    no_bound, pair_bits, phase_bits, right_bound, rotl_u16, Intersect, IntersectSeal, Intersection,
    NaiveIntersect,
};
use crate::packed::{
    bits_of, bm, clear_values, clear_values_simd, key_of, lemma_bm_above, lemma_bm_at,
    lemma_bm_push, lemma_or_low, sorted_keys, unpack_values, unpack_values_simd, word,
};
use vstd::prelude::*;

verus! {

/// Lanes per block.
pub const N: usize = 8;

/// The carry output is exact up to the next left key (phase one).
pub open spec fn carry_inv(l: Seq<u64>, c: int, k: u16, li: int, cr: Seq<u64>) -> bool {
    &&& sorted_keys(cr)
    &&& forall|x: int| 0 <= x < cr.len() ==> key_of(#[trigger] cr[x]) <= left_bound(l, c, li)
    &&& forall|key: int|
        key <= left_bound(l, c, li) && key < key_limit() ==> carry_bits(#[trigger] bm(cr, key), k)
            == carry_bits(bm(l, key - c - 1), k)
    &&& cr == carries_of(l.take(li), c, k)
}

/// The word-level part of the block walk state: the primary output holds a
/// word for each common key below `h` and for no other key; the consumed left
/// words lie at or below the last right key, and so does `h` unless no left
/// word from `li` on is below it.
pub open spec fn block_extra(
    first: bool,
    l: Seq<u64>,
    r: Seq<u64>,
    c: int,
    li: int,
    h: int,
    p: Seq<u64>,
) -> bool {
    &&& forall|x: int| 0 <= x < p.len() ==> common_key(l, r, c, key_of(#[trigger] p[x]))
    &&& forall|i: int, j: int|
        0 <= i < l.len() && 0 <= j < r.len() && key_of(#[trigger] l[i]) + c == key_of(
            #[trigger] r[j],
        ) && key_of(r[j]) < h ==> has_key(p, key_of(r[j]))
    &&& first ==> consumed_below(l, r, c, li)
    &&& (r.len() > 0 && h <= key_of(r.last()) + 1) || (forall|x: int|
        li <= x < l.len() ==> key_of(#[trigger] l[x]) + c >= h)
}

/// State of the block walk: every key below `h` is done in the primary
/// output; the words before the indices are below `h`; at least one of the
/// two next words is not.
#[verifier::opaque]
pub open spec fn block_inv(
    first: bool,
    l: Seq<u64>,
    r: Seq<u64>,
    c: int,
    k: u16,
    li: int,
    ri: int,
    h: int,
    p: Seq<u64>,
    cr: Seq<u64>,
) -> bool {
    &&& 0 <= li <= l.len()
    &&& 0 <= ri <= r.len()
    &&& sorted_keys(p)
    &&& forall|z: int| 0 <= z < p.len() ==> key_of(#[trigger] p[z]) < h
    &&& forall|key: int| key < h ==> #[trigger] bm(p, key) == phase_bits(first, l, r, c, k, key)
    &&& forall|x: int| 0 <= x < li ==> key_of(#[trigger] l[x]) + c < h
    &&& forall|y: int| 0 <= y < ri ==> key_of(#[trigger] r[y]) < h
    &&& (li < l.len() && key_of(l[li]) + c >= h) || (ri < r.len() && key_of(r[ri]) >= h)
        || li == l.len() || ri == r.len()
    &&& first ==> carry_inv(l, c, k, li, cr)
    &&& block_extra(first, l, r, c, li, h, p)
}

/// One left word's carry keeps the carry output exact one word further.
proof fn lemma_carry_one(l: Seq<u64>, c: int, k: u16, li: int, cr: Seq<u64>, cr2: Seq<u64>)
    requires
        sorted_keys(l),
        k < 16,
        0 <= c,
        0 <= li < l.len(),
        carry_inv(l, c, k, li, cr),
        cr2 == if carry_bits(bits_of(l[li]), k) != 0 && key_of(l[li]) + c + 1 < key_limit() {
            cr.push(word(key_of(l[li]) + c + 1, bits_of(l[li])))
        } else {
            cr
        },
    ensures
        carry_inv(l, c, k, li + 1, cr2),
{
    let kl = key_of(l[li]) + c;
    let vl = bits_of(l[li]);
    let lb2 = left_bound(l, c, li + 1);
    lemma_bm_at(l, li);
    lemma_bits_facts(vl, 0, k);
    if li + 1 < l.len() {
        assert(key_of(l[li]) < key_of(l[li + 1]));
    }
    if carry_bits(vl, k) != 0 && kl + 1 < key_limit() {
        crate::packed::lemma_word_of(kl + 1, vl);
    }
    assert forall|x: int, y: int| 0 <= x < y < cr2.len() implies key_of(#[trigger] cr2[x])
        < key_of(#[trigger] cr2[y]) by {
        if y < cr.len() {
            assert(key_of(cr[x]) < key_of(cr[y]));
        } else {
            assert(key_of(cr[x]) <= kl);
        }
    }
    assert forall|x: int| 0 <= x < cr2.len() implies key_of(#[trigger] cr2[x]) <= lb2 by {
        if x < cr.len() {
            assert(key_of(cr[x]) <= kl);
        }
    }
    assert forall|key: int| key <= lb2 && key < key_limit() implies carry_bits(
        #[trigger] bm(cr2, key),
        k,
    ) == carry_bits(bm(l, key - c - 1), k) by {
        if carry_bits(vl, k) != 0 && kl + 1 < key_limit() {
            lemma_bm_push(cr, word(kl + 1, vl), key);
        }
        if key <= kl {
        } else if key == kl + 1 {
            lemma_bm_above(cr, key);
            lemma_bits_facts(0, 0, k);
        } else {
            lemma_bm_above(cr, key);
            crate::packed::lemma_bm_gap(l, li, key - c - 1);
            lemma_bits_facts(0, 0, k);
        }
    }
    let t = l.take(li + 1);
    assert(t.drop_last() =~= l.take(li));
    assert(t.last() == l[li]);
}

/// Entering the block walk from a kernel state.
proof fn lemma_block_enter(
    first: bool,
    l: Seq<u64>,
    r: Seq<u64>,
    c: int,
    k: u16,
    li: int,
    ri: int,
    p: Seq<u64>,
    cr: Seq<u64>,
)
    requires
        sorted_keys(l),
        sorted_keys(r),
        0 <= c,
        kernel_inv(first, l, r, c, k, li, ri, p, cr),
    ensures
        block_inv(
            first,
            l,
            r,
            c,
            k,
            li,
            ri,
            min_int(left_bound(l, c, li), right_bound(r, ri)),
            p,
            cr,
        ),
{
    reveal(block_inv);
    let h = min_int(left_bound(l, c, li), right_bound(r, ri));
    assert forall|x: int| 0 <= x < li implies key_of(#[trigger] l[x]) + c < h by {
        if li < l.len() {
            assert(key_of(l[x]) < key_of(l[li]));
        }
    }
    assert forall|y: int| 0 <= y < ri implies key_of(#[trigger] r[y]) < h by {
        if ri < r.len() {
            assert(key_of(r[y]) < key_of(r[ri]));
        }
    }
    if ri < r.len() {
        if ri < r.len() - 1 {
            assert(key_of(r[ri]) < key_of(r[r.len() - 1]));
        }
    } else {
        assert forall|x: int| li <= x < l.len() implies key_of(#[trigger] l[x]) + c >= h by {
            if x > li {
                assert(key_of(l[li]) < key_of(l[x]));
            }
        }
    }
}

/// Leaving the block walk once the words below `h` are passed over: a kernel
/// state again.
proof fn lemma_block_leave(
    first: bool,
    l: Seq<u64>,
    r: Seq<u64>,
    c: int,
    k: u16,
    li: int,
    ri: int,
    h: int,
    p: Seq<u64>,
    cr: Seq<u64>,
)
    requires
        sorted_keys(l),
        sorted_keys(r),
        0 <= c,
        k < 16,
        block_inv(first, l, r, c, k, li, ri, h, p, cr),
        li < l.len() ==> key_of(l[li]) + c >= h,
        ri < r.len() ==> key_of(r[ri]) >= h,
        h <= no_bound(),
    ensures
        kernel_inv(first, l, r, c, k, li, ri, p, cr),
{
    reveal(block_inv);
    let lb = left_bound(l, c, li);
    let rb = right_bound(r, ri);
    assert forall|key: int| key < min_int(lb, rb) implies #[trigger] bm(p, key) == phase_bits(
        first,
        l,
        r,
        c,
        k,
        key,
    ) by {
        if key >= h {
            if p.len() > 0 {
                assert(key_of(p[p.len() - 1]) < h);
            }
            lemma_bm_above(p, key);
            if li > 0 {
                assert(key_of(l[li - 1]) + c < h);
            }
            crate::packed::lemma_bm_gap(l, li - 1, key - c);
            lemma_bits_facts(0, bm(r, key), k);
        }
    }
    assert forall|x: int| 0 <= x < ri implies key_of(#[trigger] r[x]) < lb by {
        assert(key_of(r[x]) < h);
    }
    assert forall|x: int| 0 <= x < li implies key_of(#[trigger] l[x]) + c < rb by {
        assert(key_of(l[x]) + c < h);
    }
    assert forall|x: int| 0 <= x < p.len() implies key_of(#[trigger] p[x]) < min_int(lb, rb) by {
        assert(key_of(p[x]) < h);
    }
    assert forall|i: int, j: int|
        0 <= i < l.len() && 0 <= j < r.len() && key_of(#[trigger] l[i]) + c == key_of(
            #[trigger] r[j],
        ) && key_of(r[j]) < min_int(lb, rb) implies has_key(p, key_of(r[j])) by {
        if key_of(r[j]) >= h {
            if i < li {
                assert(key_of(l[i]) + c < h);
            } else if i > li {
                assert(key_of(l[li]) < key_of(l[i]));
            }
        }
    }
}

/// Keys of the lanes of a block.
pub open spec fn lane_keys_ok(s: Seq<u64>, at: int, c: int, keys: Seq<u128>, vals: Seq<u16>) -> bool {
    &&& keys.len() == N
    &&& vals.len() == N
    &&& forall|x: int| 0 <= x < N ==> #[trigger] keys[x] == (key_of(s[at + x]) + c) * 65536
    &&& forall|x: int| 0 <= x < N ==> #[trigger] vals[x] == bits_of(s[at + x])
}

/// What one block step emits: words of increasing key, each made of a left and
/// a right lane of equal key, and one for every such pair.
pub open spec fn emitted_ok(
    first: bool,
    l: Seq<u64>,
    r: Seq<u64>,
    c: int,
    k: u16,
    li: int,
    ri: int,
    e: Seq<u64>,
) -> bool {
    emitted_upto(first, l, r, c, k, li, ri, N as int, e)
}

/// Word `w` is made of left lane `a` and right lane `b`, of equal key.
pub open spec fn from_lanes(
    first: bool,
    l: Seq<u64>,
    r: Seq<u64>,
    c: int,
    k: u16,
    w: u64,
    a: int,
    b: int,
) -> bool {
    &&& key_of(w) == key_of(l[a]) + c
    &&& key_of(w) == key_of(r[b])
    &&& bits_of(w) == pair_bits(first, bits_of(l[a]), bits_of(r[b]), k)
}

proof fn lemma_bm_append(a: Seq<u64>, b: Seq<u64>, h: int, key: int)
    requires
        forall|z: int| 0 <= z < a.len() ==> key_of(#[trigger] a[z]) < h,
        forall|z: int| 0 <= z < b.len() ==> key_of(#[trigger] b[z]) >= h,
    ensures
        bm(a + b, key) == if key < h {
            bm(a, key)
        } else {
            bm(b, key)
        },
    decreases b.len(),
{
    if b.len() == 0 {
        assert(a + b =~= a);
        if key >= h {
            crate::packed::lemma_bm_absent(a, key);
        }
    } else {
        assert((a + b).drop_last() =~= a + b.drop_last());
        lemma_bm_append(a, b.drop_last(), h, key);
    }
}

/// The emitted keys of a block step lie between `h` and the smaller last key.
proof fn lemma_emitted_range(
    first: bool,
    l: Seq<u64>,
    r: Seq<u64>,
    c: int,
    k: u16,
    li: int,
    ri: int,
    h: int,
    e: Seq<u64>,
)
    requires
        sorted_keys(l),
        sorted_keys(r),
        0 <= li,
        0 <= ri,
        li + N <= l.len(),
        ri + N <= r.len(),
        key_of(l[li]) + c >= h || key_of(r[ri]) >= h,
        emitted_ok(first, l, r, c, k, li, ri, e),
    ensures
        forall|z: int|
            0 <= z < e.len() ==> h <= key_of(#[trigger] e[z]) <= min_int(
                key_of(l[li + N - 1]) + c,
                key_of(r[ri + N - 1]),
            ),
{
    reveal(emitted_upto);
    assert forall|z: int| 0 <= z < e.len() implies h <= key_of(#[trigger] e[z]) <= min_int(
        key_of(l[li + N - 1]) + c,
        key_of(r[ri + N - 1]),
    ) by {
        assert(made_of_lanes(first, l, r, c, k, li, ri, N as int, e[z]));
        let (x, y) = choose|x: int, y: int|
            li <= x < li + N && ri <= y < ri + N && #[trigger] from_lanes(first, l, r, c, k, e[z], x, y);
        if x > li {
            assert(key_of(l[li]) < key_of(l[x]));
        }
        if y > ri {
            assert(key_of(r[ri]) < key_of(r[y]));
        }
        if x < li + N - 1 {
            assert(key_of(l[x]) < key_of(l[li + N - 1]));
        }
        if y < ri + N - 1 {
            assert(key_of(r[y]) < key_of(r[ri + N - 1]));
        }
    }
}

/// Under a key the block step reached, the emitted words give the phase bits.
proof fn lemma_block_key(
    first: bool,
    l: Seq<u64>,
    r: Seq<u64>,
    c: int,
    k: u16,
    li: int,
    ri: int,
    h: int,
    e: Seq<u64>,
    key: int,
)
    requires
        sorted_keys(l),
        sorted_keys(r),
        0 <= c,
        k < 16,
        0 <= li,
        0 <= ri,
        forall|x: int| 0 <= x < li ==> key_of(#[trigger] l[x]) + c < h,
        forall|y: int| 0 <= y < ri ==> key_of(#[trigger] r[y]) < h,
        li + N <= l.len(),
        ri + N <= r.len(),
        emitted_ok(first, l, r, c, k, li, ri, e),
        h <= key <= min_int(key_of(l[li + N - 1]) + c, key_of(r[ri + N - 1])),
    ensures
        bm(e, key) == phase_bits(first, l, r, c, k, key),
{
    reveal(emitted_upto);
    if exists|z: int| 0 <= z < e.len() && key_of(#[trigger] e[z]) == key {
        let z = choose|z: int| 0 <= z < e.len() && key_of(#[trigger] e[z]) == key;
        lemma_bm_at(e, z);
        assert(made_of_lanes(first, l, r, c, k, li, ri, N as int, e[z]));
        let (x, y) = choose|x: int, y: int|
            li <= x < li + N && ri <= y < ri + N && #[trigger] from_lanes(first, l, r, c, k, e[z], x, y);
        lemma_bm_at(l, x);
        lemma_bm_at(r, y);
    } else {
        crate::packed::lemma_bm_absent(e, key);
        if bm(l, key - c) != 0 && bm(r, key) != 0 {
            crate::packed::lemma_bm_present(l, key - c);
            crate::packed::lemma_bm_present(r, key);
            let x = choose|x: int| 0 <= x < l.len() && key_of(#[trigger] l[x]) == key - c;
            let y = choose|y: int| 0 <= y < r.len() && key_of(#[trigger] r[y]) == key;
            if x >= li + N {
                assert(key_of(l[li + N - 1]) < key_of(l[x]));
            }
            if y >= ri + N {
                assert(key_of(r[ri + N - 1]) < key_of(r[y]));
            }
            if x < li {
                assert(key_of(l[x]) + c < h);
            }
            if y < ri {
                assert(key_of(r[y]) < h);
            }
            assert(key_of(l[x]) + c == key_of(r[y]));
            assert(false);
        }
        lemma_bits_facts(0, bm(r, key), k);
        lemma_bits_facts(bm(l, key - c), 0, k);
    }
}

/// The primary output after a block step is exact below the new bound.
proof fn lemma_block_primary(
    first: bool,
    l: Seq<u64>,
    r: Seq<u64>,
    c: int,
    k: u16,
    li: int,
    ri: int,
    h: int,
    p: Seq<u64>,
    e: Seq<u64>,
    h2: int,
)
    requires
        sorted_keys(l),
        sorted_keys(r),
        0 <= c,
        k < 16,
        0 <= li,
        0 <= ri,
        sorted_keys(p),
        forall|z: int| 0 <= z < p.len() ==> key_of(#[trigger] p[z]) < h,
        forall|key: int| key < h ==> #[trigger] bm(p, key) == phase_bits(first, l, r, c, k, key),
        forall|x: int| 0 <= x < li ==> key_of(#[trigger] l[x]) + c < h,
        forall|y: int| 0 <= y < ri ==> key_of(#[trigger] r[y]) < h,
        key_of(l[li]) + c >= h || key_of(r[ri]) >= h,
        li + N <= l.len(),
        ri + N <= r.len(),
        emitted_ok(first, l, r, c, k, li, ri, e),
        h <= h2,
        min_int(key_of(l[li + N - 1]) + c, key_of(r[ri + N - 1])) + 1 <= h2,
        h2 == h || h2 == min_int(key_of(l[li + N - 1]) + c, key_of(r[ri + N - 1])) + 1,
    ensures
        sorted_keys(p + e),
        forall|z: int| 0 <= z < (p + e).len() ==> key_of(#[trigger] (p + e)[z]) < h2,
        forall|key: int| key < h2 ==> #[trigger] bm(p + e, key) == phase_bits(first, l, r, c, k, key),
{
    let m = min_int(key_of(l[li + N - 1]) + c, key_of(r[ri + N - 1]));
    let pe = p + e;
    lemma_emitted_range(first, l, r, c, k, li, ri, h, e);
    reveal(emitted_upto);
    assert forall|x: int, y: int| 0 <= x < y < pe.len() implies key_of(#[trigger] pe[x]) < key_of(
        #[trigger] pe[y],
    ) by {
        if y < p.len() {
            assert(key_of(p[x]) < key_of(p[y]));
        } else if x >= p.len() {
            assert(key_of(e[x - p.len()]) < key_of(e[y - p.len()]));
        } else {
            assert(key_of(p[x]) < h);
            assert(h <= key_of(e[y - p.len()]));
        }
    }
    assert forall|z: int| 0 <= z < pe.len() implies key_of(#[trigger] pe[z]) < h2 by {
        if z < p.len() {
            assert(key_of(p[z]) < h);
        } else {
            assert(key_of(e[z - p.len()]) <= m);
        }
    }
    assert forall|z: int| 0 <= z < e.len() implies key_of(#[trigger] e[z]) >= h by {}
    assert forall|key: int| key < h2 implies #[trigger] bm(pe, key) == phase_bits(
        first,
        l,
        r,
        c,
        k,
        key,
    ) by {
        lemma_bm_append(p, e, h, key);
        if key >= h {
            lemma_block_key(first, l, r, c, k, li, ri, h, e, key);
        }
    }
}

/// The word-level part of the block walk state through one block step.
proof fn lemma_block_step_extra(
    first: bool,
    l: Seq<u64>,
    r: Seq<u64>,
    c: int,
    k: u16,
    li: int,
    ri: int,
    h: int,
    p: Seq<u64>,
    e: Seq<u64>,
)
    requires
        sorted_keys(l),
        sorted_keys(r),
        0 <= li,
        0 <= ri,
        li + N <= l.len(),
        ri + N <= r.len(),
        block_extra(first, l, r, c, li, h, p),
        forall|x: int| 0 <= x < li ==> key_of(#[trigger] l[x]) + c < h,
        forall|y: int| 0 <= y < ri ==> key_of(#[trigger] r[y]) < h,
        emitted_ok(first, l, r, c, k, li, ri, e),
    ensures
        ({
            let la = key_of(l[li + N - 1]) + c;
            let lr = key_of(r[ri + N - 1]);
            let m = min_int(la, lr);
            let h2 = if h > m + 1 {
                h
            } else {
                m + 1
            };
            block_extra(
                first,
                l,
                r,
                c,
                if la <= lr {
                    li + N
                } else {
                    li
                },
                h2,
                p + e,
            )
        }),
{
    reveal(emitted_upto);
    let la = key_of(l[li + N - 1]) + c;
    let lr = key_of(r[ri + N - 1]);
    let m = min_int(la, lr);
    let h2 = if h > m + 1 {
        h
    } else {
        m + 1
    };
    let li2 = if la <= lr {
        li + N
    } else {
        li
    };
    let pe = p + e;
    assert(lr <= key_of(r.last())) by {
        if ri + N - 1 < r.len() - 1 {
            assert(key_of(r[ri + N - 1]) < key_of(r[r.len() - 1]));
        }
    }
    assert forall|x: int| 0 <= x < pe.len() implies common_key(l, r, c, key_of(#[trigger] pe[x])) by {
        if x < p.len() {
            assert(pe[x] == p[x]);
        } else {
            let z = x - p.len();
            assert(pe[x] == e[z]);
            assert(made_of_lanes(first, l, r, c, k, li, ri, N as int, e[z]));
            let (a, b) = choose|a: int, b: int|
                li <= a < li + N && ri <= b < ri + N && #[trigger] from_lanes(first, l, r, c, k, e[z], a, b);
            assert(key_of(l[a]) + c == key_of(pe[x]) && key_of(r[b]) == key_of(pe[x]));
        }
    }
    assert forall|i: int, j: int|
        0 <= i < l.len() && 0 <= j < r.len() && key_of(#[trigger] l[i]) + c == key_of(
            #[trigger] r[j],
        ) && key_of(r[j]) < h2 implies has_key(pe, key_of(r[j])) by {
        let kk = key_of(r[j]);
        if kk < h {
            let x = choose|x: int| 0 <= x < p.len() && key_of(#[trigger] p[x]) == kk;
            assert(pe[x] == p[x]);
        } else {
            if i < li {
                assert(key_of(l[i]) + c < h);
            }
            if j < ri {
                assert(key_of(r[j]) < h);
            }
            if i >= li + N {
                assert(key_of(l[li + N - 1]) < key_of(l[i]));
            }
            if j >= ri + N {
                assert(key_of(r[ri + N - 1]) < key_of(r[j]));
            }
            let z = choose|z: int| 0 <= z < e.len() && key_of(e[z]) == key_of(r[j]);
            assert(pe[p.len() + z] == e[z]);
        }
    }
    if first {
        assert forall|x: int| 0 <= x < li2 implies r.len() > 0 && key_of(#[trigger] l[x]) + c
            <= key_of(r.last()) by {
            if x < li {
                assert(consumed_below(l, r, c, li));
            } else if x < li + N - 1 {
                assert(key_of(l[x]) < key_of(l[li + N - 1]));
            }
        }
    }
    if !(r.len() > 0 && h2 <= key_of(r.last()) + 1) {
        assert(h2 == h);
        assert forall|x: int| li2 <= x < l.len() implies key_of(#[trigger] l[x]) + c >= h2 by {
            assert(key_of(l[x]) + c >= h);
        }
    }
}

/// One block step keeps the block walk state.
proof fn lemma_block_step(
    first: bool,
    l: Seq<u64>,
    r: Seq<u64>,
    c: int,
    k: u16,
    li: int,
    ri: int,
    h: int,
    p: Seq<u64>,
    cr: Seq<u64>,
    e: Seq<u64>,
    cr2: Seq<u64>,
)
    requires
        sorted_keys(l),
        sorted_keys(r),
        0 <= c,
        k < 16,
        block_inv(first, l, r, c, k, li, ri, h, p, cr),
        li + N <= l.len(),
        ri + N <= r.len(),
        emitted_ok(first, l, r, c, k, li, ri, e),
        ({
            let la = key_of(l[li + N - 1]) + c;
            let lr = key_of(r[ri + N - 1]);
            &&& first && la <= lr ==> carry_inv(l, c, k, li + N, cr2)
            &&& (!first || la > lr) ==> cr2 == cr
        }),
    ensures
        ({
            let la = key_of(l[li + N - 1]) + c;
            let lr = key_of(r[ri + N - 1]);
            let m = min_int(la, lr);
            let h2 = if h > m + 1 {
                h
            } else {
                m + 1
            };
            block_inv(
                first,
                l,
                r,
                c,
                k,
                if la <= lr {
                    li + N
                } else {
                    li
                },
                if lr <= la {
                    ri + N
                } else {
                    ri
                },
                h2,
                p + e,
                cr2,
            )
        }),
{
    reveal(block_inv);
    let la = key_of(l[li + N - 1]) + c;
    let lr = key_of(r[ri + N - 1]);
    let m = min_int(la, lr);
    let h2 = if h > m + 1 {
        h
    } else {
        m + 1
    };
    let li2 = if la <= lr {
        li + N
    } else {
        li
    };
    let ri2 = if lr <= la {
        ri + N
    } else {
        ri
    };
    lemma_block_primary(first, l, r, c, k, li, ri, h, p, e, h2);
    lemma_block_step_extra(first, l, r, c, k, li, ri, h, p, e);
    assert forall|x: int| 0 <= x < li2 implies key_of(#[trigger] l[x]) + c < h2 by {
        if li <= x < li + N {
            if x < li + N - 1 {
                assert(key_of(l[x]) < key_of(l[li + N - 1]));
            }
        } else {
            assert(key_of(l[x]) + c < h);
        }
    }
    assert forall|y: int| 0 <= y < ri2 implies key_of(#[trigger] r[y]) < h2 by {
        if ri <= y < ri + N {
            if y < ri + N - 1 {
                assert(key_of(r[y]) < key_of(r[ri + N - 1]));
            }
        } else {
            assert(key_of(r[y]) < h);
        }
    }
    if li2 < l.len() && ri2 < r.len() {
        if li2 == li + N {
            assert(key_of(l[li + N - 1]) < key_of(l[li + N]));
            assert(key_of(l[li]) < key_of(l[li + N]));
        }
        if ri2 == ri + N {
            assert(key_of(r[ri + N - 1]) < key_of(r[ri + N]));
            assert(key_of(r[ri]) < key_of(r[ri + N]));
        }
        if li2 == li {
            assert(key_of(l[li]) < key_of(l[li + N - 1]));
        }
        if ri2 == ri {
            assert(key_of(r[ri]) < key_of(r[ri + N - 1]));
        }
    }
}

/// The carry part of the block walk state.
proof fn lemma_block_carry(
    first: bool,
    l: Seq<u64>,
    r: Seq<u64>,
    c: int,
    k: u16,
    li: int,
    ri: int,
    h: int,
    p: Seq<u64>,
    cr: Seq<u64>,
)
    requires
        block_inv(first, l, r, c, k, li, ri, h, p, cr),
        first,
    ensures
        carry_inv(l, c, k, li, cr),
{
    reveal(block_inv);
}

/// Passing over a right word below `h`.
proof fn lemma_skip_right(
    first: bool,
    l: Seq<u64>,
    r: Seq<u64>,
    c: int,
    k: u16,
    li: int,
    ri: int,
    h: int,
    p: Seq<u64>,
    cr: Seq<u64>,
)
    requires
        block_inv(first, l, r, c, k, li, ri, h, p, cr),
        ri < r.len(),
        key_of(r[ri]) < h,
    ensures
        block_inv(first, l, r, c, k, li, ri + 1, h, p, cr),
{
    reveal(block_inv);
}

/// Passing over a left word below `h`, with its carry.
proof fn lemma_skip_left(
    first: bool,
    l: Seq<u64>,
    r: Seq<u64>,
    c: int,
    k: u16,
    li: int,
    ri: int,
    h: int,
    p: Seq<u64>,
    cr: Seq<u64>,
    cr2: Seq<u64>,
)
    requires
        sorted_keys(l),
        k < 16,
        0 <= c,
        block_inv(first, l, r, c, k, li, ri, h, p, cr),
        li < l.len(),
        key_of(l[li]) + c < h,
        ri < r.len() ==> key_of(r[ri]) >= h,
        first ==> cr2 == if carry_bits(bits_of(l[li]), k) != 0 && key_of(l[li]) + c + 1 < key_limit() {
            cr.push(word(key_of(l[li]) + c + 1, bits_of(l[li])))
        } else {
            cr
        },
        !first ==> cr2 == cr,
    ensures
        block_inv(first, l, r, c, k, li + 1, ri, h, p, cr2),
{
    reveal(block_inv);
    if first {
        lemma_carry_one(l, c, k, li, cr, cr2);
    }
}

/// Block kernel: eight words of each list at a time, the naive kernel for
/// what is left.
pub struct SimdIntersect;

impl IntersectSeal for SimdIntersect {

}

impl Intersection for SimdIntersect {

}

/// Key of a left word moved `add_to_group` ahead, as a wide word.
fn lane_key(w: u64, add_to_group: u64) -> (r: u128)
    requires
        add_to_group % 65536 == 0,
    ensures
        r == (key_of(w) + add_to_group as int / 65536) * 65536,
{
    clear_values(w) as u128 + add_to_group as u128
}

/// Keys and bitmaps of the eight words of `s` from `at`, the keys moved
/// `add_to_group` ahead.
fn load_block(s: &[u64], at: usize, add_to_group: u64) -> (r: ([u128; 8], [u16; 8]))
    requires
        at + N <= s@.len(),
        add_to_group % 65536 == 0,
    ensures
        lane_keys_ok(s@, at as int, add_to_group as int / 65536, r.0@, r.1@),
{
    let mut words: [u64; 8] = [0u64; 8];
    let n = s.len();
    let mut x: usize = 0;
    while x < N
        invariant
            x <= N,
            n == s@.len(),
            at + N <= s@.len(),
            forall|t: int| 0 <= t < x ==> #[trigger] words@[t] == s@[at + t],
        decreases N - x,
    {
        words[x] = s[at + x];
        x = x + 1;
    }
    let cleared = clear_values_simd(words);
    let vals = unpack_values_simd(words);
    let mut keys: [u128; 8] = [0u128; 8];
    x = 0;
    while x < N
        invariant
            x <= N,
            add_to_group % 65536 == 0,
            forall|t: int| 0 <= t < N ==> #[trigger] cleared@[t] == key_of(words@[t]) * 65536,
            forall|t: int|
                0 <= t < x ==> #[trigger] keys@[t] == (key_of(words@[t]) + add_to_group as int
                    / 65536) * 65536,
        decreases N - x,
    {
        keys[x] = cleared[x] as u128 + add_to_group as u128;
        x = x + 1;
    }
    (keys, vals)
}

/// Word `w` is made of one of the first `x` left lanes and a right lane.
pub open spec fn made_of_lanes(
    first: bool,
    l: Seq<u64>,
    r: Seq<u64>,
    c: int,
    k: u16,
    li: int,
    ri: int,
    x: int,
    w: u64,
) -> bool {
    exists|a: int, b: int|
        li <= a < li + x && ri <= b < ri + N && #[trigger] from_lanes(first, l, r, c, k, w, a, b)
}

proof fn lemma_made_of_more(
    first: bool,
    l: Seq<u64>,
    r: Seq<u64>,
    c: int,
    k: u16,
    li: int,
    ri: int,
    x: int,
    w: u64,
)
    requires
        made_of_lanes(first, l, r, c, k, li, ri, x, w),
    ensures
        made_of_lanes(first, l, r, c, k, li, ri, x + 1, w),
{
    let (a, b) = choose|a: int, b: int|
        li <= a < li + x && ri <= b < ri + N && #[trigger] from_lanes(first, l, r, c, k, w, a, b);
    assert(from_lanes(first, l, r, c, k, w, a, b));
}

/// What the first `x` left lanes of a block step emitted.
#[verifier::opaque]
pub open spec fn emitted_upto(
    first: bool,
    l: Seq<u64>,
    r: Seq<u64>,
    c: int,
    k: u16,
    li: int,
    ri: int,
    x: int,
    e: Seq<u64>,
) -> bool {
    &&& sorted_keys(e)
    &&& forall|z: int|
        0 <= z < e.len() ==> #[trigger] made_of_lanes(first, l, r, c, k, li, ri, x, e[z])
    &&& forall|a: int, b: int|
        li <= a < li + x && ri <= b < ri + N && key_of(#[trigger] l[a]) + c == key_of(
            #[trigger] r[b],
        ) ==> exists|z: int| 0 <= z < e.len() && key_of(e[z]) == key_of(r[b])
}

proof fn lemma_emit_found(
    first: bool,
    l: Seq<u64>,
    r: Seq<u64>,
    c: int,
    k: u16,
    li: int,
    ri: int,
    x: int,
    y: int,
    e: Seq<u64>,
    w: u64,
)
    requires
        sorted_keys(l),
        sorted_keys(r),
        0 <= li,
        0 <= ri,
        0 <= x < N,
        0 <= y < N,
        li + N <= l.len(),
        ri + N <= r.len(),
        emitted_upto(first, l, r, c, k, li, ri, x, e),
        from_lanes(first, l, r, c, k, w, li + x, ri + y),
    ensures
        emitted_upto(first, l, r, c, k, li, ri, x + 1, e.push(w)),
{
    reveal(emitted_upto);
    let e1 = e.push(w);
    let kx = key_of(l[li + x]) + c;
    assert forall|z: int| 0 <= z < e.len() implies key_of(#[trigger] e[z]) < kx by {
        assert(made_of_lanes(first, l, r, c, k, li, ri, x, e[z]));
        let (a, b) = choose|a: int, b: int|
            li <= a < li + x && ri <= b < ri + N && #[trigger] from_lanes(first, l, r, c, k, e[z], a, b);
        assert(0 <= a < li + x < l.len());
        assert(key_of(l[a]) < key_of(l[li + x]));
    }
    assert forall|a: int, b: int| 0 <= a < b < e1.len() implies key_of(#[trigger] e1[a]) < key_of(
        #[trigger] e1[b],
    ) by {
        if b < e.len() {
            assert(key_of(e[a]) < key_of(e[b]));
        } else {
            assert(key_of(e[a]) < kx);
        }
    }
    assert forall|z: int| 0 <= z < e1.len() implies #[trigger] made_of_lanes(
        first,
        l,
        r,
        c,
        k,
        li,
        ri,
        x + 1,
        e1[z],
    ) by {
        if z < e.len() {
            assert(e1[z] == e[z]);
            assert(made_of_lanes(first, l, r, c, k, li, ri, x, e[z]));
            lemma_made_of_more(first, l, r, c, k, li, ri, x, e[z]);
        } else {
            assert(e1[z] == w);
            assert(from_lanes(first, l, r, c, k, e1[z], li + x, ri + y));
        }
    }
    assert forall|a: int, b: int|
        li <= a < li + x + 1 && ri <= b < ri + N && key_of(#[trigger] l[a]) + c == key_of(
            #[trigger] r[b],
        ) implies exists|z: int| 0 <= z < e1.len() && key_of(e1[z]) == key_of(r[b]) by {
        if a < li + x {
            let z = choose|z: int| 0 <= z < e.len() && key_of(e[z]) == key_of(r[b]);
            assert(e1[z] == e[z]);
        } else {
            assert(e1[e.len() as int] == w);
        }
    }
}

proof fn lemma_emit_none(
    first: bool,
    l: Seq<u64>,
    r: Seq<u64>,
    c: int,
    k: u16,
    li: int,
    ri: int,
    x: int,
    e: Seq<u64>,
)
    requires
        0 <= x < N,
        li + N <= l.len(),
        ri + N <= r.len(),
        emitted_upto(first, l, r, c, k, li, ri, x, e),
        forall|y: int| 0 <= y < N ==> key_of(l[li + x]) + c != #[trigger] key_of(r[ri + y]),
    ensures
        emitted_upto(first, l, r, c, k, li, ri, x + 1, e),
{
    reveal(emitted_upto);
    assert forall|z: int| 0 <= z < e.len() implies #[trigger] made_of_lanes(
        first,
        l,
        r,
        c,
        k,
        li,
        ri,
        x + 1,
        e[z],
    ) by {
        assert(made_of_lanes(first, l, r, c, k, li, ri, x, e[z]));
        lemma_made_of_more(first, l, r, c, k, li, ri, x, e[z]);
    }
    assert forall|a: int, b: int|
        li <= a < li + x + 1 && ri <= b < ri + N && key_of(#[trigger] l[a]) + c == key_of(
            #[trigger] r[b],
        ) implies exists|z: int| 0 <= z < e.len() && key_of(e[z]) == key_of(r[b]) by {
        if a == li + x {
            assert(key_of(l[li + x]) + c != key_of(r[ri + (b - ri)]));
        }
    }
}

/// The 2-intersect of a block pair: for each left lane, in order, the right
/// lane of equal key if there is one, and the word it produces.
fn emit_block(
    first: bool,
    lhs: &[u64],
    rhs: &[u64],
    li: usize,
    ri: usize,
    lk: &[u128; 8],
    lv: &[u16; 8],
    rk: &[u128; 8],
    rv: &[u16; 8],
    add_to_group: u64,
    lhs_len: u16,
    lsb_mask: u16,
    packed_result: &mut Vec<u64>,
)
    requires
        sorted_keys(lhs@),
        sorted_keys(rhs@),
        li + N <= lhs@.len(),
        ri + N <= rhs@.len(),
        lhs_len < 16,
        lsb_mask == crate::intersect::lsb_mask_of(lhs_len),
        add_to_group % 65536 == 0,
        lane_keys_ok(lhs@, li as int, add_to_group as int / 65536, lk@, lv@),
        lane_keys_ok(rhs@, ri as int, 0, rk@, rv@),
    ensures
        final(packed_result)@.len() >= old(packed_result)@.len(),
        final(packed_result)@.subrange(0, old(packed_result)@.len() as int) == old(packed_result)@,
        emitted_ok(
            first,
            lhs@,
            rhs@,
            add_to_group as int / 65536,
            lhs_len,
            li as int,
            ri as int,
            final(packed_result)@.subrange(
                old(packed_result)@.len() as int,
                final(packed_result)@.len() as int,
            ),
        ),
{
    let ghost c = add_to_group as int / 65536;
    let ghost p0 = packed_result@;
    let mut x: usize = 0;
    proof {
        assert(packed_result@.subrange(p0.len() as int, packed_result@.len() as int) =~= Seq::<
            u64,
        >::empty());
        reveal(emitted_upto);
    }
    while x < N
        invariant
            x <= N,
            li + N <= lhs@.len(),
            ri + N <= rhs@.len(),
            sorted_keys(lhs@),
            sorted_keys(rhs@),
            lhs_len < 16,
            lsb_mask == crate::intersect::lsb_mask_of(lhs_len),
            c == add_to_group as int / 65536,
            lane_keys_ok(lhs@, li as int, c, lk@, lv@),
            lane_keys_ok(rhs@, ri as int, 0, rk@, rv@),
            packed_result@.len() >= p0.len(),
            packed_result@.subrange(0, p0.len() as int) == p0,
            emitted_upto(
                first,
                lhs@,
                rhs@,
                c,
                lhs_len,
                li as int,
                ri as int,
                x as int,
                packed_result@.subrange(p0.len() as int, packed_result@.len() as int),
            ),
        decreases N - x,
    {
        let mut y: usize = 0;
        let mut found: usize = N;
        while y < N
            invariant
                y <= N,
                x < N,
                found == N || (found < N && lk@[x as int] == rk@[found as int]),
                found == N ==> forall|t: int| 0 <= t < y ==> lk@[x as int] != #[trigger] rk@[t],
            decreases N - y,
        {
            if found == N && lk[x] == rk[y] {
                found = y;
            }
            y = y + 1;
        }
        let ghost e0 = packed_result@.subrange(p0.len() as int, packed_result@.len() as int);
        if found < N {
            let intersection = if first {
                (lv[x] << lhs_len) & rv[found]
            } else {
                rotl_u16(lv[x], lhs_len) & lsb_mask & rv[found]
            };
            proof {
                lemma_bits_facts(lv@[x as int], rv@[found as int], lhs_len);
                assert(lk@[x as int] == (key_of(lhs@[li + x]) + c) * 65536);
                assert(rk@[found as int] == key_of(rhs@[ri + found]) * 65536);
                lemma_or_low(lk@[x as int] as u64, intersection as u64);
            }
            let ghost before = packed_result@;
            let w = (lk[x] as u64) | intersection as u64;
            packed_result.push(w);
            proof {
                assert(from_lanes(first, lhs@, rhs@, c, lhs_len, w, li + x, ri + found));
                lemma_emit_found(
                    first,
                    lhs@,
                    rhs@,
                    c,
                    lhs_len,
                    li as int,
                    ri as int,
                    x as int,
                    found as int,
                    e0,
                    w,
                );
                assert(packed_result@.subrange(p0.len() as int, packed_result@.len() as int)
                    =~= e0.push(w));
                assert(packed_result@.subrange(0, p0.len() as int) =~= before.subrange(
                    0,
                    p0.len() as int,
                ));
            }
        } else {
            proof {
                assert forall|t: int| 0 <= t < N implies key_of(lhs@[li + x]) + c
                    != #[trigger] key_of(rhs@[ri + t]) by {
                    assert(lk@[x as int] != rk@[t]);
                }
                lemma_emit_none(first, lhs@, rhs@, c, lhs_len, li as int, ri as int, x as int, e0);
            }
        }
        x = x + 1;
    }
}

/// The carries of a left block: a carry word one group on for each lane
/// whose bits spill over.
fn block_carries(
    lhs: &[u64],
    li: usize,
    lk: &[u128; 8],
    lv: &[u16; 8],
    add_to_group: u64,
    lhs_len: u16,
    msb_mask: u16,
    msb_packed_result: &mut Vec<u64>,
)
    requires
        sorted_keys(lhs@),
        li + N <= lhs@.len(),
        lhs_len < 16,
        msb_mask == crate::intersect::msb_mask_of(lhs_len),
        add_to_group % 65536 == 0,
        lane_keys_ok(lhs@, li as int, add_to_group as int / 65536, lk@, lv@),
        carry_inv(lhs@, add_to_group as int / 65536, lhs_len, li as int, old(msb_packed_result)@),
    ensures
        carry_inv(lhs@, add_to_group as int / 65536, lhs_len, li + N, final(msb_packed_result)@),
{
    let ghost c = add_to_group as int / 65536;
    let mut x: usize = 0;
    while x < N
        invariant
            x <= N,
            li + N <= lhs@.len(),
            sorted_keys(lhs@),
            lhs_len < 16,
            msb_mask == crate::intersect::msb_mask_of(lhs_len),
            c == add_to_group as int / 65536,
            c >= 0,
            lane_keys_ok(lhs@, li as int, c, lk@, lv@),
            carry_inv(lhs@, c, lhs_len, li + x, msb_packed_result@),
        decreases N - x,
    {
        let ghost before = msb_packed_result@;
        proof {
            lemma_bits_facts(lv@[x as int], 0, lhs_len);
            assert(lk@[x as int] == (key_of(lhs@[li + x]) + c) * 65536);
        }
        if lv[x] & msb_mask != 0 && lk[x] < 0xFFFF_FFFF_FFFF_0000 {
            proof {
                lemma_or_low((lk@[x as int] + 65536) as u64, lv@[x as int] as u64);
            }
            msb_packed_result.push(((lk[x] + 65536) as u64) | lv[x] as u64);
        }
        proof {
            lemma_carry_one(lhs@, c, lhs_len, li + x, before, msb_packed_result@);
        }
        x = x + 1;
    }
}

impl Intersect for SimdIntersect {
    fn inner_intersect(
        first: bool,
        lhs: &[u64],
        rhs: &[u64],
        lhs_i: &mut usize,
        rhs_i: &mut usize,
        packed_result: &mut Vec<u64>,
        msb_packed_result: &mut Vec<u64>,
        add_to_group: u64,
        lhs_len: u16,
        msb_mask: u16,
        lsb_mask: u16,
    ) {
        let ghost c: int = add_to_group as int / 65536;
        let ghost msb0 = msb_packed_result@;
        // every key below `h_word / 65536` is done
        let lb_word: u128 = if *lhs_i < lhs.len() {
            lane_key(lhs[*lhs_i], add_to_group)
        } else {
            0x1_0000_0000_0000_0000_0000
        };
        let rb_word: u128 = if *rhs_i < rhs.len() {
            clear_values(rhs[*rhs_i]) as u128
        } else {
            0x1_0000_0000_0000_0000_0000
        };
        let mut h_word: u128 = if lb_word < rb_word {
            lb_word
        } else {
            rb_word
        };
        proof {
            lemma_block_enter(
                first,
                lhs@,
                rhs@,
                c,
                lhs_len,
                *lhs_i as int,
                *rhs_i as int,
                packed_result@,
                msb_packed_result@,
            );
            assert(h_word as int / 65536 == min_int(
                left_bound(lhs@, c, *lhs_i as int),
                right_bound(rhs@, *rhs_i as int),
            ));
        }
        while lhs.len() - *lhs_i >= N && rhs.len() - *rhs_i >= N
            invariant
                sorted_keys(lhs@),
                sorted_keys(rhs@),
                kernel_args(first, add_to_group, lhs_len, msb_mask, lsb_mask),
                c == add_to_group as int / 65536,
                *lhs_i <= lhs@.len(),
                *rhs_i <= rhs@.len(),
                h_word % 65536 == 0,
                h_word <= 0x1_0000_0000_0000_0000_0000,
                block_inv(
                    first,
                    lhs@,
                    rhs@,
                    c,
                    lhs_len,
                    *lhs_i as int,
                    *rhs_i as int,
                    h_word as int / 65536,
                    packed_result@,
                    msb_packed_result@,
                ),
                !first ==> msb_packed_result@ == msb0,
            decreases lhs@.len() - *lhs_i + rhs@.len() - *rhs_i,
        {
            let li = *lhs_i;
            let ri = *rhs_i;
            let ghost h = h_word as int / 65536;
            let (lk, lv) = load_block(lhs, li, add_to_group);
            let (rk, rv) = load_block(rhs, ri, 0);
            let lhs_last = lk[N - 1];
            let rhs_last = rk[N - 1];
            let ghost p0 = packed_result@;
            emit_block(
                first,
                lhs,
                rhs,
                li,
                ri,
                &lk,
                &lv,
                &rk,
                &rv,
                add_to_group,
                lhs_len,
                lsb_mask,
                packed_result,
            );
            let ghost e = packed_result@.subrange(p0.len() as int, packed_result@.len() as int);
            proof {
                assert(packed_result@ =~= p0 + e);
            }
            let ghost cr0 = msb_packed_result@;
            if first && lhs_last <= rhs_last {
                proof {
                    lemma_block_carry(
                        first,
                        lhs@,
                        rhs@,
                        c,
                        lhs_len,
                        li as int,
                        ri as int,
                        h,
                        p0,
                        cr0,
                    );
                }
                block_carries(
                    lhs,
                    li,
                    &lk,
                    &lv,
                    add_to_group,
                    lhs_len,
                    msb_mask,
                    msb_packed_result,
                );
            }
            if lhs_last <= rhs_last {
                *lhs_i = li + N;
            }
            if rhs_last <= lhs_last {
                *rhs_i = ri + N;
            }
            let m = if lhs_last < rhs_last {
                lhs_last
            } else {
                rhs_last
            };
            if h_word < m + 65536 {
                h_word = m + 65536;
            }
            proof {
                assert(lhs_last == (key_of(lhs@[li + N - 1]) + c) * 65536);
                assert(rhs_last == key_of(rhs@[ri + N - 1]) * 65536);
                lemma_block_step(
                    first,
                    lhs@,
                    rhs@,
                    c,
                    lhs_len,
                    li as int,
                    ri as int,
                    h,
                    p0,
                    cr0,
                    e,
                    msb_packed_result@,
                );
            }
        }
        // pass over the words that the blocks already took care of
        while *rhs_i < rhs.len() && (clear_values(rhs[*rhs_i]) as u128) < h_word
            invariant
                sorted_keys(lhs@),
                sorted_keys(rhs@),
                c == add_to_group as int / 65536,
                *rhs_i <= rhs@.len(),
                h_word % 65536 == 0,
                h_word <= 0x1_0000_0000_0000_0000_0000,
                block_inv(
                    first,
                    lhs@,
                    rhs@,
                    c,
                    lhs_len,
                    *lhs_i as int,
                    *rhs_i as int,
                    h_word as int / 65536,
                    packed_result@,
                    msb_packed_result@,
                ),
            decreases rhs@.len() - *rhs_i,
        {
            proof {
                lemma_skip_right(
                    first,
                    lhs@,
                    rhs@,
                    c,
                    lhs_len,
                    *lhs_i as int,
                    *rhs_i as int,
                    h_word as int / 65536,
                    packed_result@,
                    msb_packed_result@,
                );
            }
            *rhs_i = *rhs_i + 1;
        }
        while *lhs_i < lhs.len() && lane_key(lhs[*lhs_i], add_to_group) < h_word
            invariant
                sorted_keys(lhs@),
                sorted_keys(rhs@),
                kernel_args(first, add_to_group, lhs_len, msb_mask, lsb_mask),
                c == add_to_group as int / 65536,
                *lhs_i <= lhs@.len(),
                h_word % 65536 == 0,
                h_word <= 0x1_0000_0000_0000_0000_0000,
                *rhs_i < rhs@.len() ==> key_of(rhs@[*rhs_i as int]) >= h_word as int / 65536,
                block_inv(
                    first,
                    lhs@,
                    rhs@,
                    c,
                    lhs_len,
                    *lhs_i as int,
                    *rhs_i as int,
                    h_word as int / 65536,
                    packed_result@,
                    msb_packed_result@,
                ),
                !first ==> msb_packed_result@ == msb0,
            decreases lhs@.len() - *lhs_i,
        {
            let w = lhs[*lhs_i];
            let v = unpack_values(w);
            let lkey = lane_key(w, add_to_group);
            let ghost before = msb_packed_result@;
            proof {
                lemma_bits_facts(v, 0, lhs_len);
            }
            if first && v & msb_mask != 0 && lkey < 0xFFFF_FFFF_FFFF_0000 {
                proof {
                    lemma_or_low((lkey + 65536) as u64, v as u64);
                }
                msb_packed_result.push(((lkey + 65536) as u64) | v as u64);
            }
            proof {
                lemma_skip_left(
                    first,
                    lhs@,
                    rhs@,
                    c,
                    lhs_len,
                    *lhs_i as int,
                    *rhs_i as int,
                    h_word as int / 65536,
                    packed_result@,
                    before,
                    msb_packed_result@,
                );
            }
            *lhs_i = *lhs_i + 1;
        }
        proof {
            lemma_block_leave(
                first,
                lhs@,
                rhs@,
                c,
                lhs_len,
                *lhs_i as int,
                *rhs_i as int,
                h_word as int / 65536,
                packed_result@,
                msb_packed_result@,
            );
        }
        NaiveIntersect::inner_intersect(
            first,
            lhs,
            rhs,
            lhs_i,
            rhs_i,
            packed_result,
            msb_packed_result,
            add_to_group,
            lhs_len,
            msb_mask,
            lsb_mask,
        );
    }

    fn intersection_buffer_size(lhs: &[u64], rhs: &[u64]) -> (r: usize) {
        if lhs.len() < rhs.len() {
            lhs.len() + 1 + N
        } else {
            rhs.len() + 1 + N
        }
    }
}

} // verus!
