//! Posting lists in the Roaringish packed format.
use crate::intersect::{
    bit_shift, carry_bits, group_shift, is_phrase_result, lemma_combine, min_int, phase_bits,
    phrase_bits, right_bound, shl_bits, GallopIntersectFirst, GallopIntersectSecond, Intersection,
};
use crate::packed::{
    bit_set, bits_of, bm, clear_values, gv, has_pos, key_of, lemma_bit_or_single, lemma_bm_above, lemma_bm_at, lemma_bm_gap, lemma_bm_skip, lemma_or_bits, clear_group_values, ADD_ONE_GROUP,
    lemma_bm_push, lemma_bm_update_last, lemma_key_bits, lemma_key_split, lemma_no_bit, lemma_or_low,
    lemma_set_bit, sorted_keys, doc_of, unpack_doc_id, unpack_doc_id_simd, unpack_values, pack_doc_id, pack_doc_id_group, pack_value, wf_packed, MAX_VALUE,
};
use core::marker::PhantomData;
use vstd::prelude::*;

verus! {

/// A posting list owned in memory: packed words ordered by key
/// (document id, then group), one word per key.
pub struct RoaringishPacked(Vec<u64>);

impl View for RoaringishPacked {
    type V = Seq<u64>;

    closed spec fn view(&self) -> Seq<u64> {
        self.0@
    }
}

impl Default for RoaringishPacked {
    fn default() -> (r: Self)
        ensures
            r@ == Seq::<u64>::empty(),
    {
        RoaringishPacked(Vec::new())
    }
}

/// Marks a borrowed posting list whose words are read in place.
#[derive(Clone, Copy, Debug)]
pub struct Aligned;

/// Marks a borrowed posting list whose words were copied out of a byte buffer.
#[derive(Clone, Copy, Debug)]
pub struct Unaligned;

/// A posting list borrowed from elsewhere (the posting file or an owned list).
pub struct BorrowRoaringishPacked<'a, A>(&'a [u64], PhantomData<A>);

impl<'a, A> Clone for BorrowRoaringishPacked<'a, A> {
    fn clone(&self) -> (r: Self)
        ensures
            r@ == self@,
    {
        BorrowRoaringishPacked(self.0, PhantomData)
    }
}

impl<'a, A> Copy for BorrowRoaringishPacked<'a, A> {

}

impl<'a, A> View for BorrowRoaringishPacked<'a, A> {
    type V = Seq<u64>;

    closed spec fn view(&self) -> Seq<u64> {
        self.0@
    }
}

/// An owned posting list, or one borrowed from a batch file, as met while the
/// batches of an index are merged.
pub enum RoaringishPackedKind<'a, A> {
    Owned(RoaringishPacked),
    Archived(BorrowRoaringishPacked<'a, A>),
}

impl<'a, A> View for RoaringishPackedKind<'a, A> {
    type V = Seq<u64>;

    open spec fn view(&self) -> Seq<u64> {
        match self {
            RoaringishPackedKind::Owned(p) => p@,
            RoaringishPackedKind::Archived(p) => p@,
        }
    }
}

/// Little-endian bytes of a word.
pub open spec fn word_bytes(w: u64) -> Seq<u8> {
    seq![
        w as u8,
        (w >> 8u64) as u8,
        (w >> 16u64) as u8,
        (w >> 24u64) as u8,
        (w >> 32u64) as u8,
        (w >> 40u64) as u8,
        (w >> 48u64) as u8,
        (w >> 56u64) as u8,
    ]
}

/// Bytes of a posting list as stored in the posting file.
pub open spec fn list_bytes(s: Seq<u64>) -> Seq<u8>
    decreases s.len(),
{
    if s.len() == 0 {
        Seq::empty()
    } else {
        list_bytes(s.drop_last()) + word_bytes(s.last())
    }
}

/// The word stored little-endian at bytes `8 * i .. 8 * i + 8`.
pub open spec fn word_at(b: Seq<u8>, i: int) -> u64 {
    (b[8 * i] as u64) | ((b[8 * i + 1] as u64) << 8u64) | ((b[8 * i + 2] as u64) << 16u64) | ((b[8
        * i + 3] as u64) << 24u64) | ((b[8 * i + 4] as u64) << 32u64) | ((b[8 * i + 5] as u64)
        << 40u64) | ((b[8 * i + 6] as u64) << 48u64) | ((b[8 * i + 7] as u64) << 56u64)
}

/// Every key of `a` is below every key of `b`.
pub open spec fn keys_before(a: Seq<u64>, b: Seq<u64>) -> bool {
    forall|i: int, j: int|
        0 <= i < a.len() && 0 <= j < b.len() ==> key_of(#[trigger] a[i]) < key_of(#[trigger] b[j])
}

impl RoaringishPacked {
    /// An empty posting list.
    pub fn new() -> (r: Self)
        ensures
            r@ == Seq::<u64>::empty(),
    {
        RoaringishPacked(Vec::new())
    }

    /// Number of packed words.
    pub fn len(&self) -> (r: usize)
        ensures
            r == self@.len(),
    {
        self.0.len()
    }

    /// The posting list made of `words`, as they are.
    pub fn from_vec(words: Vec<u64>) -> (r: Self)
        ensures
            r@ == words@,
    {
        RoaringishPacked(words)
    }

    /// Whether the list holds no word.
    pub fn is_empty(&self) -> (r: bool)
        ensures
            r == (self@.len() == 0),
    {
        self.0.len() == 0
    }

    /// The packed words.
    pub fn as_slice(&self) -> (r: &[u64])
        ensures
            r@ == self@,
    {
        self.0.as_slice()
    }

    /// Size occupied in bytes.
    pub fn size_bytes(&self) -> (r: usize)
        requires
            self@.len() * 8 <= usize::MAX,
        ensures
            r == self@.len() * 8,
    {
        self.0.len() * 8
    }

    /// Records the positions `pos` (ascending) of document `doc_id`.
    ///
    /// A position joins the last word when that word has the same document
    /// and group, and starts a new word otherwise.
    pub fn push(&mut self, doc_id: u32, pos: &[u32])
        requires
            wf_packed(old(self)@),
            forall|i: int| 0 <= i < pos@.len() ==> pos@[i] <= MAX_VALUE,
            forall|i: int, j: int| 0 <= i < j < pos@.len() ==> pos@[i] <= pos@[j],
            pos@.len() > 0 && old(self)@.len() > 0 ==> key_of(old(self)@.last()) <= doc_id * 65536
                + pos@[0] / 16,
        ensures
            wf_packed(final(self)@),
            forall|d: int, p: int|
                0 <= p < 1048576 ==> (#[trigger] has_pos(final(self)@, d, p) <==> (has_pos(
                    old(self)@,
                    d,
                    p,
                ) || (d == doc_id && exists|i: int| 0 <= i < pos@.len() && pos@[i] == p))),
            pos@.len() == 0 ==> final(self)@ == old(self)@,
            pos@.len() > 0 ==> final(self)@.len() > 0 && key_of(final(self)@.last()) == doc_id
                * 65536 + pos@.last() / 16,
            final(self)@.len() <= old(self)@.len() + pos@.len(),
            old(self)@.len() > 0 ==> final(self)@.take(old(self)@.len() - 1) == old(
                self,
            )@.drop_last(),
            pos@.len() > 0 && (old(self)@.len() == 0 || key_of(old(self)@.last()) < doc_id * 65536
                + pos@[0] / 16) ==> final(self)@.take(old(self)@.len() as int) == old(self)@,
    {
        let packed_doc_id = pack_doc_id(doc_id);
        let n = pos.len();
        if n == 0 {
            return;
        }
        self.0.reserve(n);
        let ghost s0 = self@;
        let ghost fresh = s0.len() == 0 || key_of(s0.last()) < doc_id * 65536 + pos@[0] / 16;
        let mut idx: usize = 0;
        while idx < n
            invariant
                0 <= idx <= n,
                n == pos@.len(),
                packed_doc_id == doc_id as int * 0x1_0000_0000,
                wf_packed(self@),
                idx > 0 ==> self@.len() > 0 && key_of(self@.last()) == doc_id * 65536 + pos@[idx
                    - 1] / 16,
                idx == 0 ==> self@ == s0,
                s0 == old(self)@,
                wf_packed(s0),
                forall|i: int| 0 <= i < pos@.len() ==> pos@[i] <= MAX_VALUE,
                forall|i: int, j: int| 0 <= i < j < pos@.len() ==> pos@[i] <= pos@[j],
                s0.len() > 0 ==> key_of(s0.last()) <= doc_id * 65536 + pos@[0] / 16,
                fresh == (s0.len() == 0 || key_of(s0.last()) < doc_id * 65536 + pos@[0] / 16),
                self@.len() <= s0.len() + idx,
                self@.len() >= s0.len(),
                s0.len() > 0 ==> self@.take(s0.len() - 1) == s0.drop_last(),
                fresh ==> self@.take(s0.len() as int) == s0,
                fresh && idx > 0 ==> self@.len() > s0.len(),
                forall|d: int, p: int|
                    0 <= p < 1048576 ==> (#[trigger] has_pos(self@, d, p) <==> (has_pos(s0, d, p)
                        || (d == doc_id && exists|i: int| 0 <= i < idx && pos@[i] == p))),
            decreases n - idx,
        {
            let p = pos[idx];
            let (g, v) = gv(p);
            let doc_id_group = pack_doc_id_group(packed_doc_id, g);
            let value = pack_value(v);
            let ghost kp: int = doc_id * 65536 + p / 16;
            let ghost prev = self@;
            proof {
                lemma_or_low(doc_id_group, value);
                if idx > 0 {
                    assert(pos@[idx - 1] <= pos@[idx as int]);
                }
                assert(prev.len() > 0 ==> key_of(prev.last()) <= kp);
            }
            let len = self.0.len();
            let last_doc_id_group = if len > 0 {
                clear_values(self.0[len - 1])
            } else {
                u64::MAX
            };
            if len > 0 && last_doc_id_group == doc_id_group {
                let w = self.0[len - 1];
                self.0.set(len - 1, w | value);
                proof {
                    lemma_set_bit(w, v);
                    lemma_bit_or_single(bits_of(w), v, 0);
                    let s = self@;
                    assert(s == prev.update(prev.len() - 1, w | value));
                    assert(key_of(w) == kp);
                    if s0.len() > 0 {
                        assert(s.take(s0.len() - 1) =~= prev.take(s0.len() - 1));
                    }
                    if fresh {
                        if idx == 0 {
                            assert(prev == s0);
                            assert(false);
                        }
                        assert(s.take(s0.len() as int) =~= prev.take(s0.len() as int));
                    }
                    assert forall|i: int, j: int| 0 <= i < j < s.len() implies key_of(
                        #[trigger] s[i],
                    ) < key_of(#[trigger] s[j]) by {
                        assert(key_of(prev[i]) < key_of(prev[j]));
                    }
                    assert forall|i: int| 0 <= i < s.len() implies bits_of(#[trigger] s[i])
                        != 0 by {
                        assert(bits_of(prev[i]) != 0);
                    }
                    assert(s == prev.update(prev.len() - 1, w | value));
                    assert forall|d: int, q: int| 0 <= q < 1048576 implies (#[trigger] has_pos(
                        s,
                        d,
                        q,
                    ) <==> (has_pos(s0, d, q) || (d == doc_id && exists|i: int|
                        0 <= i < idx + 1 && pos@[i] == q))) by {
                        let kq = d * 65536 + q / 16;
                        lemma_bm_update_last(prev, w | value, kq);
                        lemma_bm_update_last(prev, w, kq);
                        assert(prev.update(prev.len() - 1, w) =~= prev);
                        if kq == kp {
                            lemma_key_split(d, q / 16, doc_id as int, p as int / 16);
                            lemma_bit_or_single(bits_of(w), v, (q % 16) as u16);
                            assert(bm(prev, kq) == bits_of(w));
                            assert(bm(s, kq) == bits_of(w) | (1u16 << v));
                            assert(has_pos(s, d, q) <==> (has_pos(prev, d, q) || q % 16 == v));
                            if q % 16 == v {
                                assert(q == p);
                                assert(pos@[idx as int] == q);
                            }
                            if exists|i: int| 0 <= i < idx + 1 && pos@[i] == q {
                                let i = choose|i: int| 0 <= i < idx + 1 && pos@[i] == q;
                                if i < idx {
                                    assert(has_pos(prev, d, q));
                                }
                            }
                        } else {
                            assert(has_pos(prev, d, q) == has_pos(s, d, q));
                            if d == doc_id && exists|i: int| 0 <= i < idx + 1 && pos@[i] == q {
                                let i = choose|i: int| 0 <= i < idx + 1 && pos@[i] == q;
                                if i == idx {
                                    assert(q / 16 == p / 16);
                                }
                                assert(has_pos(prev, d, q));
                            }
                        }
                    }
                }
            } else {
                self.0.push(doc_id_group | value);
                proof {
                    let w = doc_id_group | value;
                    lemma_bit_or_single(0, v, 0);
                    assert(key_of(w) == kp);
                    assert(bits_of(w) == 1u16 << v);
                    let s = self@;
                    assert(s == prev.push(w));
                    if s0.len() > 0 {
                        assert(s.take(s0.len() - 1) =~= prev.take(s0.len() - 1));
                    }
                    assert(s.take(s0.len() as int) =~= prev.take(s0.len() as int));
                    if prev.len() > 0 {
                        lemma_key_bits(prev.last());
                        assert(key_of(prev.last()) < kp);
                    }
                    assert forall|i: int, j: int| 0 <= i < j < s.len() implies key_of(
                        #[trigger] s[i],
                    ) < key_of(#[trigger] s[j]) by {
                        if j < prev.len() {
                            assert(key_of(prev[i]) < key_of(prev[j]));
                        } else if i < prev.len() - 1 {
                            assert(key_of(prev[i]) < key_of(prev[prev.len() - 1]));
                        }
                    }
                    assert forall|i: int| 0 <= i < s.len() implies bits_of(#[trigger] s[i])
                        != 0 by {
                        if i < prev.len() {
                            assert(bits_of(prev[i]) != 0);
                        }
                    }
                    lemma_bm_above(prev, kp);
                    assert forall|d: int, q: int| 0 <= q < 1048576 implies (#[trigger] has_pos(
                        s,
                        d,
                        q,
                    ) <==> (has_pos(s0, d, q) || (d == doc_id && exists|i: int|
                        0 <= i < idx + 1 && pos@[i] == q))) by {
                        let kq = d * 65536 + q / 16;
                        lemma_bm_push(prev, w, kq);
                        if kq == kp {
                            lemma_key_split(d, q / 16, doc_id as int, p as int / 16);
                            lemma_bit_or_single(0, v, (q % 16) as u16);
                            lemma_no_bit((q % 16) as u16);
                            assert(bm(s, kq) == (1u16 << v));
                            assert(bm(prev, kq) == 0);
                            assert(!has_pos(prev, d, q));
                            assert(has_pos(s, d, q) <==> q % 16 == v);
                            if q % 16 == v {
                                assert(q == p);
                                assert(pos@[idx as int] == q);
                            }
                            if exists|i: int| 0 <= i < idx + 1 && pos@[i] == q {
                                let i = choose|i: int| 0 <= i < idx + 1 && pos@[i] == q;
                                if i < idx {
                                    assert(has_pos(prev, d, q));
                                }
                            }
                        } else {
                            assert(has_pos(prev, d, q) == has_pos(s, d, q));
                            if d == doc_id && exists|i: int| 0 <= i < idx + 1 && pos@[i] == q {
                                let i = choose|i: int| 0 <= i < idx + 1 && pos@[i] == q;
                                if i == idx {
                                    assert(q / 16 == p / 16);
                                }
                                assert(has_pos(prev, d, q));
                            }
                        }
                    }
                }
            }
            idx = idx + 1;
        }
    }
}

/// State of the merge of `p` and `q` after `p[..i]` and `q[..j]`: `out` is
/// exact below both next keys.
pub open spec fn merge_inv(p: Seq<u64>, q: Seq<u64>, i: int, j: int, out: Seq<u64>) -> bool {
    let mb = min_int(right_bound(p, i), right_bound(q, j));
    &&& 0 <= i <= p.len()
    &&& 0 <= j <= q.len()
    &&& wf_packed(out)
    &&& forall|x: int| 0 <= x < out.len() ==> key_of(#[trigger] out[x]) < mb
    &&& forall|key: int| key < mb ==> #[trigger] bm(out, key) == bm(p, key) | bm(q, key)
    &&& forall|x: int| 0 <= x < i ==> key_of(#[trigger] p[x]) < right_bound(q, j)
    &&& forall|x: int| 0 <= x < j ==> key_of(#[trigger] q[x]) < right_bound(p, i)
}

/// One step of the merge: take the next word of `q` alone (`side == 0`), of
/// `p` alone (`side == 1`), or both when their keys are equal (`side == 2`);
/// a word whose bitmap is empty is dropped.
proof fn lemma_merge_step(
    p: Seq<u64>,
    q: Seq<u64>,
    i: int,
    j: int,
    out: Seq<u64>,
    side: int,
    w: u64,
)
    requires
        sorted_keys(p),
        sorted_keys(q),
        merge_inv(p, q, i, j, out),
        side == 0 ==> j < q.len() && (i < p.len() ==> key_of(q[j]) < key_of(p[i])) && w == q[j],
        side == 1 ==> i < p.len() && (j < q.len() ==> key_of(p[i]) < key_of(q[j])) && w == p[i],
        side == 2 ==> i < p.len() && j < q.len() && key_of(p[i]) == key_of(q[j]) && key_of(w)
            == key_of(p[i]) && bits_of(w) == bits_of(p[i]) | bits_of(q[j]),
        0 <= side <= 2,
    ensures
        ({
            let i2 = if side >= 1 {
                i + 1
            } else {
                i
            };
            let j2 = if side != 1 {
                j + 1
            } else {
                j
            };
            merge_inv(p, q, i2, j2, if bits_of(w) != 0 { out.push(w) } else { out })
        }),
{
    let i2 = if side >= 1 {
        i + 1
    } else {
        i
    };
    let j2 = if side != 1 {
        j + 1
    } else {
        j
    };
    let out2 = if bits_of(w) != 0 {
        out.push(w)
    } else {
        out
    };
    let kw = key_of(w);
    let mb = min_int(right_bound(p, i), right_bound(q, j));
    let mb2 = min_int(right_bound(p, i2), right_bound(q, j2));
    if side != 1 {
        lemma_bm_at(q, j);
        if j + 1 < q.len() {
            assert(key_of(q[j]) < key_of(q[j + 1]));
        }
    }
    if side >= 1 {
        lemma_bm_at(p, i);
        if i + 1 < p.len() {
            assert(key_of(p[i]) < key_of(p[i + 1]));
        }
    }
    assert(kw == mb);
    assert forall|x: int, y: int| 0 <= x < y < out2.len() implies key_of(#[trigger] out2[x])
        < key_of(#[trigger] out2[y]) by {
        if y < out.len() {
            assert(key_of(out[x]) < key_of(out[y]));
        } else {
            assert(key_of(out[x]) < mb);
        }
    }
    assert forall|x: int| 0 <= x < out2.len() implies bits_of(#[trigger] out2[x]) != 0 by {
        if x < out.len() {
            assert(bits_of(out[x]) != 0);
        }
    }
    assert forall|x: int| 0 <= x < out2.len() implies key_of(#[trigger] out2[x]) < mb2 by {
        if x < out.len() {
            assert(key_of(out[x]) < mb);
        }
    }
    assert forall|key: int| key < mb2 implies #[trigger] bm(out2, key) == bm(p, key) | bm(
        q,
        key,
    ) by {
        if bits_of(w) != 0 {
            lemma_bm_push(out, w, key);
        }
        lemma_or_bits(0, bm(q, key));
        lemma_or_bits(0, bm(p, key));
        if key < mb {
        } else if key == kw {
            lemma_bm_above(out, key);
            if side == 0 {
                if i > 0 {
                    assert(key_of(p[i - 1]) < right_bound(q, j));
                }
                lemma_bm_gap(p, i - 1, key);
            } else if side == 1 {
                if j > 0 {
                    assert(key_of(q[j - 1]) < right_bound(p, i));
                }
                lemma_bm_gap(q, j - 1, key);
            }
            if bits_of(w) == 0 {
                lemma_or_bits(0, 0);
            }
        } else {
            lemma_bm_above(out, key);
            if side == 0 {
                lemma_bm_gap(q, j, key);
                if i > 0 {
                    assert(key_of(p[i - 1]) < right_bound(q, j));
                }
                lemma_bm_gap(p, i - 1, key);
            } else if side == 1 {
                lemma_bm_gap(p, i, key);
                if j > 0 {
                    assert(key_of(q[j - 1]) < right_bound(p, i));
                }
                lemma_bm_gap(q, j - 1, key);
            } else {
                lemma_bm_gap(p, i, key);
                lemma_bm_gap(q, j, key);
            }
            lemma_bm_above(out, key);
            lemma_or_bits(0, 0);
            if bits_of(w) != 0 {
                assert(bm(out2, key) == bm(out, key));
            }
        }
    }
    assert forall|x: int| 0 <= x < i2 implies key_of(#[trigger] p[x]) < right_bound(q, j2) by {
        if x < i {
            assert(key_of(p[x]) < right_bound(q, j));
            if j2 == j + 1 && j + 1 < q.len() {
                assert(key_of(q[j]) < key_of(q[j + 1]));
            }
        }
    }
    assert forall|x: int| 0 <= x < j2 implies key_of(#[trigger] q[x]) < right_bound(p, i2) by {
        if x < j {
            assert(key_of(q[x]) < right_bound(p, i));
            if i2 == i + 1 && i + 1 < p.len() {
                assert(key_of(p[i]) < key_of(p[i + 1]));
            }
        }
    }
}

/// Merges the outputs of the two phases into one posting list: words of
/// equal key are or-ed together and empty words are dropped.
fn merge_results(packed: &Vec<u64>, msb_packed: &Vec<u64>) -> (r: RoaringishPacked)
    requires
        sorted_keys(packed@),
        sorted_keys(msb_packed@),
    ensures
        wf_packed(r@),
        forall|key: int| #[trigger] bm(r@, key) == bm(packed@, key) | bm(msb_packed@, key),
{
    let ghost p = packed@;
    let ghost q = msb_packed@;
    let mut out: Vec<u64> = Vec::new();
    let mut j: usize = 0;
    let mut i: usize = 0;
    proof {
        assert forall|key: int| key < min_int(right_bound(p, 0), right_bound(q, 0)) implies #[trigger] bm(Seq::<u64>::empty(), key) == bm(p, key) | bm(q, key) by {
            lemma_bm_gap(p, -1, key);
            lemma_bm_gap(q, -1, key);
            lemma_or_bits(0, 0);
        }
    }
    while i < packed.len()
        invariant
            p == packed@,
            q == msb_packed@,
            sorted_keys(p),
            sorted_keys(q),
            merge_inv(p, q, i as int, j as int, out@),
        decreases p.len() - i,
    {
        let pack = packed[i];
        let doc_id_group = clear_values(pack);
        let values = unpack_values(pack);
        // the carry words below the current key
        while j < msb_packed.len() && clear_values(msb_packed[j]) < doc_id_group
            invariant
                p == packed@,
                q == msb_packed@,
                sorted_keys(p),
                sorted_keys(q),
                i < p.len(),
                pack == p[i as int],
                doc_id_group == key_of(pack) * 65536,
                merge_inv(p, q, i as int, j as int, out@),
            decreases q.len() - j,
        {
            let msb_pack = msb_packed[j];
            let msb_values = unpack_values(msb_pack);
            proof {
                lemma_merge_step(p, q, i as int, j as int, out@, 0, msb_pack);
            }
            if msb_values > 0 {
                out.push(msb_pack);
            }
            j = j + 1;
        }
        let write = values > 0;
        if j < msb_packed.len() && clear_values(msb_packed[j]) == doc_id_group {
            let msb_pack = msb_packed[j];
            let msb_values = unpack_values(msb_pack);
            proof {
                lemma_or_bits(pack, msb_values);
                lemma_merge_step(
                    p,
                    q,
                    i as int,
                    j as int,
                    out@,
                    2,
                    pack | (msb_values as u64),
                );
                lemma_or_bits(msb_pack, 0);
            }
            let ghost before = out@;
            if write {
                out.push(pack);
                let last = out.len() - 1;
                let w = out[last];
                out.set(last, w | (msb_values as u64));
                assert(out@ =~= before.push(pack | (msb_values as u64)));
            } else if msb_values > 0 {
                proof {
                    lemma_key_bits(msb_pack);
                    lemma_key_bits(pack | (msb_values as u64));
                    assert(msb_pack == pack | (msb_values as u64));
                }
                out.push(msb_pack);
            }
            j = j + 1;
        } else {
            proof {
                lemma_merge_step(p, q, i as int, j as int, out@, 1, pack);
            }
            if write {
                out.push(pack);
            }
        }
        i = i + 1;
    }
    // finish the rest of the carry words
    while j < msb_packed.len()
        invariant
            p == packed@,
            q == msb_packed@,
            sorted_keys(p),
            sorted_keys(q),
            i == p.len(),
            merge_inv(p, q, i as int, j as int, out@),
        decreases q.len() - j,
    {
        let msb_pack = msb_packed[j];
        let msb_values = unpack_values(msb_pack);
        proof {
            lemma_merge_step(p, q, i as int, j as int, out@, 0, msb_pack);
        }
        if msb_values > 0 {
            out.push(msb_pack);
        }
        j = j + 1;
    }
    proof {
        assert forall|key: int| #[trigger] bm(out@, key) == bm(p, key) | bm(q, key) by {
            if key >= crate::intersect::no_bound() {
                crate::packed::lemma_bm_absent(out@, key);
                crate::packed::lemma_bm_absent(p, key);
                crate::packed::lemma_bm_absent(q, key);
                lemma_or_bits(0, 0);
            }
        }
    }
    RoaringishPacked(out)
}

/// Length ratio from which phase one gallops.
pub const FIRST_GALLOP_INTERSECT: usize = 650;

/// Length ratio from which phase two gallops.
pub const SECOND_GALLOP_INTERSECT: usize = 120;

/// First index whose word has a cleared key of at least `target`.
fn lower_bound(s: &[u64], target: u64) -> (r: usize)
    requires
        sorted_keys(s@),
    ensures
        r <= s@.len(),
        forall|x: int| 0 <= x < r ==> key_of(#[trigger] s@[x]) * 65536 < target,
        forall|x: int| r <= x < s@.len() ==> key_of(#[trigger] s@[x]) * 65536 >= target,
{
    let mut lo: usize = 0;
    let mut hi: usize = s.len();
    while lo < hi
        invariant
            sorted_keys(s@),
            lo <= hi <= s@.len(),
            forall|x: int| 0 <= x < lo ==> key_of(#[trigger] s@[x]) * 65536 < target,
            forall|x: int| hi <= x < s@.len() ==> key_of(#[trigger] s@[x]) * 65536 >= target,
        decreases hi - lo,
    {
        let mid = lo + (hi - lo) / 2;
        if clear_values(s[mid]) < target {
            proof {
                assert forall|x: int| 0 <= x < mid + 1 implies key_of(#[trigger] s@[x]) * 65536
                    < target by {
                    if x < mid {
                        assert(key_of(s@[x]) < key_of(s@[mid as int]));
                    }
                }
            }
            lo = mid + 1;
        } else {
            proof {
                assert forall|x: int| mid <= x < s@.len() implies key_of(#[trigger] s@[x])
                    * 65536 >= target by {
                    if x > mid {
                        assert(key_of(s@[mid as int]) < key_of(s@[x]));
                    }
                }
            }
            hi = mid;
        }
    }
    lo
}

/// How many leading words of each list can be skipped before a phase: the
/// words of the left list that cannot reach the first right document even
/// through a carry, or the words of the right list before the first left
/// document. The count is rounded down to a multiple of 8.
fn binary_search(lhs: &[u64], rhs: &[u64], add_to_group: u64) -> (r: (usize, usize))
    requires
        sorted_keys(lhs@),
        sorted_keys(rhs@),
        add_to_group <= 0x1000_0000_0000,
        add_to_group % 65536 == 0,
    ensures
        r.0 <= lhs@.len(),
        r.1 <= rhs@.len(),
        r.0 == 0 || r.1 == 0,
        r.0 > 0 ==> rhs@.len() > 0,
        r.1 > 0 ==> lhs@.len() > 0,
        forall|x: int|
            0 <= x < r.0 ==> key_of(#[trigger] lhs@[x]) + add_to_group / 65536 + 1 < key_of(
                rhs@[0],
            ),
        forall|y: int| 0 <= y < r.1 ==> key_of(#[trigger] rhs@[y]) < key_of(lhs@[0]),
{
    if lhs.len() == 0 || rhs.len() == 0 {
        return (0, 0);
    }
    let first_lhs = clear_group_values(lhs[0]);
    let first_rhs = clear_group_values(rhs[0]);
    if first_lhs < first_rhs {
        let reach = add_to_group + ADD_ONE_GROUP;
        if first_rhs > reach {
            let i = lower_bound(lhs, first_rhs - reach);
            let aligned_i = i / 8 * 8;
            proof {
                assert forall|x: int| 0 <= x < aligned_i implies key_of(#[trigger] lhs@[x])
                    + add_to_group / 65536 + 1 < key_of(rhs@[0]) by {
                    assert(key_of(lhs@[x]) * 65536 < first_rhs - reach);
                }
            }
            (aligned_i, 0)
        } else {
            (0, 0)
        }
    } else if first_lhs > first_rhs {
        let i = lower_bound(rhs, first_lhs);
        let aligned_i = i / 8 * 8;
        proof {
            assert forall|y: int| 0 <= y < aligned_i implies key_of(#[trigger] rhs@[y]) < key_of(
                lhs@[0],
            ) by {
                assert(key_of(rhs@[y]) * 65536 < first_lhs);
            }
        }
        (0, aligned_i)
    } else {
        (0, 0)
    }
}

/// Skipping what the pre-scan allows before phase one keeps the phrase bits.
proof fn lemma_skip_first(l: Seq<u64>, r: Seq<u64>, n: u32, a: int, b: int, key: int)
    requires
        sorted_keys(l),
        sorted_keys(r),
        0 <= a <= l.len(),
        0 <= b <= r.len(),
        a == 0 || b == 0,
        a > 0 ==> r.len() > 0,
        b > 0 ==> l.len() > 0,
        forall|x: int| 0 <= x < a ==> key_of(#[trigger] l[x]) + group_shift(n) + 1 < key_of(r[0]),
        forall|y: int| 0 <= y < b ==> key_of(#[trigger] r[y]) < key_of(l[0]),
    ensures
        phrase_bits(l.skip(a), r.skip(b), n, key) == phrase_bits(l, r, n, key),
{
    let c = group_shift(n);
    let k = bit_shift(n);
    let x1 = shl_bits(bm(l.skip(a), key - c), k) | carry_bits(bm(l.skip(a), key - c - 1), k);
    let x0 = shl_bits(bm(l, key - c), k) | carry_bits(bm(l, key - c - 1), k);
    lemma_zero_and(x1);
    lemma_zero_and(x0);
    crate::packed::lemma_bm_suffix(r, b, key);
    crate::packed::lemma_bm_suffix(l, a, key - c);
    crate::packed::lemma_bm_suffix(l, a, key - c - 1);
    if bm(r, key) != 0 {
        crate::packed::lemma_bm_range(r, key);
        if exists|y: int| 0 <= y < b && key_of(#[trigger] r[y]) == key {
            crate::packed::lemma_bm_below(l, key - c);
            crate::packed::lemma_bm_below(l, key - c - 1);
            crate::intersect::lemma_bits_facts(0, 0, k);
            lemma_and_zero(0);
            lemma_and_zero(bm(r, key));
            assert(x0 == 0);
        }
        if exists|x: int| 0 <= x < a && key_of(#[trigger] l[x]) == key - c {
            let x = choose|x: int| 0 <= x < a && key_of(#[trigger] l[x]) == key - c;
            assert(key_of(r[0]) <= key);
        }
        if exists|x: int| 0 <= x < a && key_of(#[trigger] l[x]) == key - c - 1 {
            let x = choose|x: int| 0 <= x < a && key_of(#[trigger] l[x]) == key - c - 1;
            assert(key_of(r[0]) <= key);
        }
    }
}

/// Skipping what the pre-scan allows before phase two keeps its output.
proof fn lemma_skip_second(cr: Seq<u64>, r: Seq<u64>, k: u16, a: int, b: int, key: int)
    requires
        sorted_keys(cr),
        sorted_keys(r),
        k < 16,
        0 <= a <= cr.len(),
        0 <= b <= r.len(),
        a == 0 || b == 0,
        a > 0 ==> r.len() > 0,
        b > 0 ==> cr.len() > 0,
        forall|x: int| 0 <= x < a ==> key_of(#[trigger] cr[x]) + 1 < key_of(r[0]),
        forall|y: int| 0 <= y < b ==> key_of(#[trigger] r[y]) < key_of(cr[0]),
    ensures
        carry_bits(bm(cr.skip(a), key), k) & bm(r.skip(b), key) == carry_bits(bm(cr, key), k)
            & bm(r, key),
{
    lemma_and_zero(carry_bits(bm(cr.skip(a), key), k));
    lemma_and_zero(carry_bits(bm(cr, key), k));
    crate::packed::lemma_bm_suffix(r, b, key);
    crate::packed::lemma_bm_suffix(cr, a, key);
    if bm(r, key) != 0 {
        crate::packed::lemma_bm_range(r, key);
        if exists|y: int| 0 <= y < b && key_of(#[trigger] r[y]) == key {
            crate::packed::lemma_bm_below(cr, key);
            crate::intersect::lemma_bits_facts(0, 0, k);
            lemma_zero_and(bm(r, key));
        }
        if exists|x: int| 0 <= x < a && key_of(#[trigger] cr[x]) == key {
            assert(key_of(r[0]) <= key);
        }
    }
}

proof fn lemma_zero_and(v: u16)
    ensures
        0u16 & v == 0,
        v & 0u16 == 0,
{
    assert(0u16 & v == 0) by (bit_vector);
    assert(v & 0u16 == 0) by (bit_vector);
}

proof fn lemma_and_zero(v: u16)
    ensures
        v & 0u16 == 0,
        0u16 & v == 0,
        v | 0u16 == v,
{
    assert(v & 0u16 == 0) by (bit_vector);
    assert(0u16 & v == 0) by (bit_vector);
    assert(v | 0u16 == v) by (bit_vector);
}

impl<'a> BorrowRoaringishPacked<'a, Unaligned> {
    /// Borrows words copied out of a batch file.
    pub fn from_words(packed: &'a [u64]) -> (r: Self)
        ensures
            r@ == packed@,
    {
        BorrowRoaringishPacked(packed, PhantomData)
    }
}

impl<'a> BorrowRoaringishPacked<'a, Aligned> {
    /// Borrows words read in place.
    pub fn new_raw(packed: &'a [u64]) -> (r: Self)
        ensures
            r@ == packed@,
    {
        BorrowRoaringishPacked(packed, PhantomData)
    }

    /// Borrows an owned posting list.
    pub fn new(packed: &'a RoaringishPacked) -> (r: Self)
        ensures
            r@ == packed@,
    {
        BorrowRoaringishPacked(packed.0.as_slice(), PhantomData)
    }

    /// The posting list of the phrase `self` then `rhs`, whose starts are
    /// `lhs_len` positions apart: the positions `p` of `rhs` such that
    /// `p - lhs_len` is a position of `self`, under kernel `I`.
    pub fn intersect<I: Intersection>(self, rhs: Self, lhs_len: u32) -> (r: RoaringishPacked)
        requires
            wf_packed(self@),
            wf_packed(rhs@),
        ensures
            is_phrase_result(self@, rhs@, lhs_len, r@),
            r@.len() <= rhs@.len(),
    {
        let lhs = self;
        if lhs.0.len() == 0 || rhs.0.len() == 0 {
            let r = RoaringishPacked::new();
            proof {
                assert forall|key: int| #[trigger] bm(r@, key) == phrase_bits(
                    lhs@,
                    rhs@,
                    lhs_len,
                    key,
                ) by {
                    if rhs@.len() == 0 {
                        crate::packed::lemma_bm_absent(rhs@, key);
                    } else {
                        crate::packed::lemma_bm_absent(lhs@, key - group_shift(lhs_len));
                        crate::packed::lemma_bm_absent(lhs@, key - group_shift(lhs_len) - 1);
                        crate::intersect::lemma_bits_facts(0, 0, bit_shift(lhs_len));
                        lemma_and_zero(bm(rhs@, key));
                    }
                    lemma_zero_and(
                        shl_bits(bm(lhs@, key - group_shift(lhs_len)), bit_shift(lhs_len))
                            | carry_bits(
                            bm(lhs@, key - group_shift(lhs_len) - 1),
                            bit_shift(lhs_len),
                        ),
                    );
                }
            }
            proof {
                crate::intersect::lemma_phrase_result_shorter(lhs@, rhs@, lhs_len, r@);
            }
            return r;
        }
        let add_to_group: u64 = (lhs_len / 16) as u64 * ADD_ONE_GROUP;
        let (a, b) = binary_search(lhs.0, rhs.0, add_to_group);
        let l1 = vstd::slice::slice_subrange(lhs.0, a, lhs.0.len());
        let r1 = vstd::slice::slice_subrange(rhs.0, b, rhs.0.len());
        proof {
            assert(l1@ =~= lhs@.skip(a as int));
            assert(r1@ =~= rhs@.skip(b as int));
            assert forall|x: int, y: int| 0 <= x < y < l1@.len() implies key_of(#[trigger] l1@[x])
                < key_of(#[trigger] l1@[y]) by {
                assert(key_of(lhs@[x + a]) < key_of(lhs@[y + a]));
            }
            assert forall|x: int, y: int| 0 <= x < y < r1@.len() implies key_of(#[trigger] r1@[x])
                < key_of(#[trigger] r1@[y]) by {
                assert(key_of(rhs@[x + b]) < key_of(rhs@[y + b]));
            }
        }
        if l1.len() == 0 || r1.len() == 0 {
            // the pre-scan left one side without words: nothing can match
            let r = RoaringishPacked::new();
            proof {
                assert forall|key: int| #[trigger] bm(r@, key) == phrase_bits(
                    lhs@,
                    rhs@,
                    lhs_len,
                    key,
                ) by {
                    lemma_skip_first(lhs@, rhs@, lhs_len, a as int, b as int, key);
                    let c = group_shift(lhs_len);
                    let k = bit_shift(lhs_len);
                    if r1@.len() == 0 {
                        crate::packed::lemma_bm_absent(r1@, key);
                    } else {
                        crate::packed::lemma_bm_absent(l1@, key - c);
                        crate::packed::lemma_bm_absent(l1@, key - c - 1);
                        crate::intersect::lemma_bits_facts(0, 0, k);
                        lemma_and_zero(bm(r1@, key));
                    }
                    lemma_zero_and(
                        shl_bits(bm(l1@, key - c), k) | carry_bits(bm(l1@, key - c - 1), k),
                    );
                }
            }
            proof {
                crate::intersect::lemma_phrase_result_shorter(lhs@, rhs@, lhs_len, r@);
            }
            return r;
        }
        let longer = if l1.len() > r1.len() {
            l1.len()
        } else {
            r1.len()
        };
        let shorter = if l1.len() > r1.len() {
            r1.len()
        } else {
            l1.len()
        };
        let galloping = longer / shorter >= FIRST_GALLOP_INTERSECT;
        let (packed, msb_packed) = if galloping {
            crate::intersect::phase::<GallopIntersectFirst>(true, l1, r1, lhs_len)
        } else {
            crate::intersect::phase::<I>(true, l1, r1, lhs_len)
        };
        let (a2, b2) = binary_search(msb_packed.as_slice(), r1, 0);
        let c2 = vstd::slice::slice_subrange(msb_packed.as_slice(), a2, msb_packed.len());
        let r2 = vstd::slice::slice_subrange(r1, b2, r1.len());
        proof {
            assert(c2@ =~= msb_packed@.skip(a2 as int));
            assert(r2@ =~= r1@.skip(b2 as int));
            assert forall|x: int, y: int| 0 <= x < y < c2@.len() implies key_of(#[trigger] c2@[x])
                < key_of(#[trigger] c2@[y]) by {
                assert(key_of(msb_packed@[x + a2]) < key_of(msb_packed@[y + a2]));
            }
            assert forall|x: int, y: int| 0 <= x < y < r2@.len() implies key_of(#[trigger] r2@[x])
                < key_of(#[trigger] r2@[y]) by {
                assert(key_of(r1@[x + b2]) < key_of(r1@[y + b2]));
            }
        }
        let longer = if c2.len() > r2.len() {
            c2.len()
        } else {
            r2.len()
        };
        let shorter = if c2.len() > r2.len() {
            r2.len()
        } else {
            c2.len()
        };
        let (second, _) = if galloping || (shorter > 0 && longer / shorter
            >= SECOND_GALLOP_INTERSECT) {
            crate::intersect::phase::<GallopIntersectSecond>(false, c2, r2, lhs_len)
        } else {
            crate::intersect::phase::<I>(false, c2, r2, lhs_len)
        };
        let r = merge_results(&packed, &second);
        proof {
            let c = group_shift(lhs_len);
            let k = bit_shift(lhs_len);
            assert forall|key: int| #[trigger] bm(r@, key) == phrase_bits(
                lhs@,
                rhs@,
                lhs_len,
                key,
            ) by {
                lemma_skip_first(lhs@, rhs@, lhs_len, a as int, b as int, key);
                lemma_skip_second(msb_packed@, r1@, k, a2 as int, b2 as int, key);
                assert(bm(packed@, key) == phase_bits(true, l1@, r1@, c, k, key));
                assert(bm(second@, key) == phase_bits(false, c2@, r2@, 0, k, key));
                let rb = bm(r1@, key);
                lemma_combine(
                    shl_bits(bm(l1@, key - c), k),
                    carry_bits(bm(l1@, key - c - 1), k),
                    rb,
                );
                if rb != 0 {
                    crate::packed::lemma_bm_range(r1@, key);
                } else {
                    lemma_and_zero(carry_bits(bm(msb_packed@, key), k));
                    lemma_and_zero(carry_bits(bm(l1@, key - c - 1), k));
                }
            }
        }
        proof {
            crate::intersect::lemma_phrase_result_shorter(lhs@, rhs@, lhs_len, r@);
        }
        r
    }
}

/// The distinct document ids of a posting list, in list order: a word adds
/// its document id when it differs from the one before.
pub open spec fn doc_ids_of(s: Seq<u64>) -> Seq<u32>
    decreases s.len(),
{
    if s.len() == 0 {
        Seq::empty()
    } else {
        let d = doc_ids_of(s.drop_last());
        if s.len() > 1 && doc_of(s[s.len() - 2]) == doc_of(s.last()) {
            d
        } else {
            d.push(doc_of(s.last()) as u32)
        }
    }
}

proof fn lemma_doc_ids_step(s: Seq<u64>, i: int)
    requires
        0 <= i < s.len(),
    ensures
        doc_ids_of(s.take(i + 1)) == if i > 0 && doc_of(s[i - 1]) == doc_of(s[i]) {
            doc_ids_of(s.take(i))
        } else {
            doc_ids_of(s.take(i)).push(doc_of(s[i]) as u32)
        },
        doc_ids_of(s.take(i + 1)).len() > 0,
        doc_ids_of(s.take(i + 1)).last() == doc_of(s[i]),
    decreases i,
{
    assert(s.take(i + 1).drop_last() =~= s.take(i));
    if i > 0 && doc_of(s[i - 1]) == doc_of(s[i]) {
        lemma_doc_ids_step(s, i - 1);
    }
    assert(doc_of(s[i]) < 0x1_0000_0000);
}

/// The document ids of a sorted posting list come out strictly ascending, and
/// they are exactly the documents of its words.
pub proof fn lemma_doc_ids_sorted(s: Seq<u64>)
    requires
        sorted_keys(s),
    ensures
        forall|i: int, j: int|
            0 <= i < j < doc_ids_of(s).len() ==> doc_ids_of(s)[i] < doc_ids_of(s)[j],
        forall|d: u32|
            doc_ids_of(s).contains(d) <==> exists|x: int| 0 <= x < s.len() && doc_of(s[x]) == d,
    decreases s.len(),
{
    if s.len() > 0 {
        let s0 = s.drop_last();
        assert(sorted_keys(s0)) by {
            assert forall|i: int, j: int| 0 <= i < j < s0.len() implies key_of(#[trigger] s0[i])
                < key_of(#[trigger] s0[j]) by {
                assert(key_of(s[i]) < key_of(s[j]));
            }
        }
        lemma_doc_ids_sorted(s0);
        assert(s.take(s.len() as int) =~= s);
        assert(s.take(s.len() - 1) =~= s0);
        lemma_doc_ids_step(s, s.len() - 1);
        let d0 = doc_ids_of(s0);
        let last = s.last();
        assert(doc_of(last) < 0x1_0000_0000);
        if s.len() > 1 {
            lemma_doc_ids_step(s, s.len() - 2);
            assert(s.take(s.len() - 1) =~= s0);
            assert(key_of(s[s.len() - 2]) < key_of(last));
            assert(doc_of(s[s.len() - 2]) <= doc_of(last));
        }
        assert forall|d: u32| doc_ids_of(s).contains(d) <==> exists|x: int|
            0 <= x < s.len() && doc_of(s[x]) == d by {
            if doc_ids_of(s).contains(d) {
                if d0.contains(d) {
                    let x = choose|x: int| 0 <= x < s0.len() && doc_of(s0[x]) == d;
                    assert(s[x] == s0[x]);
                } else {
                    let i = choose|i: int| 0 <= i < doc_ids_of(s).len() && doc_ids_of(s)[i] == d;
                    if i < d0.len() {
                        assert(d0.contains(d));
                    }
                    assert(doc_of(s[s.len() - 1]) == d);
                }
            }
            if exists|x: int| 0 <= x < s.len() && doc_of(s[x]) == d {
                let x = choose|x: int| 0 <= x < s.len() && doc_of(s[x]) == d;
                if x < s.len() - 1 {
                    assert(s0[x] == s[x]);
                    assert(d0.contains(d));
                    let i = choose|i: int| 0 <= i < d0.len() && d0[i] == d;
                    assert(doc_ids_of(s)[i] == d);
                } else {
                    if s.len() > 1 && doc_of(s[s.len() - 2]) == doc_of(last) {
                        assert(d0.last() == d);
                        assert(doc_ids_of(s)[d0.len() - 1] == d);
                    } else {
                        assert(doc_ids_of(s)[d0.len() as int] == d);
                    }
                }
            }
        }
        if s.len() > 1 {
            assert forall|i: int, j: int| 0 <= i < j < doc_ids_of(s).len() implies doc_ids_of(
                s,
            )[i] < doc_ids_of(s)[j] by {
                if j >= d0.len() {
                    assert(d0.last() == doc_of(s[s.len() - 2]));
                    if i < d0.len() - 1 {
                        assert(d0[i] < d0[d0.len() - 1]);
                    }
                }
            }
        }
    }
}

impl<'a, A> BorrowRoaringishPacked<'a, A> {
    /// Number of packed words.
    pub fn len(&self) -> (r: usize)
        ensures
            r == self@.len(),
    {
        self.0.len()
    }

    /// The packed words.
    pub fn as_slice(&self) -> (r: &'a [u64])
        ensures
            r@ == self@,
    {
        self.0
    }

    /// The distinct document ids of the list, one per run of words of the same
    /// document: whenever the document changes between two neighbouring words,
    /// the first one's is written.
    pub fn get_doc_ids(&self) -> (r: Vec<u32>)
        ensures
            r@ == doc_ids_of(self@),
    {
        let s = self.0;
        let n = s.len();
        if n == 0 {
            return Vec::new();
        }
        if n == 1 {
            proof {
                assert(s@.take(1) =~= s@);
                lemma_doc_ids_step(s@, 0);
                assert(s@.take(0) =~= Seq::<u64>::empty());
            }
            return vec![unpack_doc_id(s[0])];
        }
        let mut doc_ids: Vec<u32> = Vec::with_capacity(n);
        let mut i: usize = 0;
        proof {
            lemma_doc_ids_step(s@, 0);
            assert(s@.take(0) =~= Seq::<u64>::empty());
        }
        while i + 1 < n
            invariant
                n == s@.len(),
                n >= 2,
                i + 1 <= n,
                doc_ids@.push(doc_of(s@[i as int]) as u32) == doc_ids_of(s@.take(i + 1)),
            decreases n - i,
        {
            let doc_id0 = unpack_doc_id(s[i]);
            let doc_id1 = unpack_doc_id(s[i + 1]);
            proof {
                lemma_doc_ids_step(s@, i + 1);
            }
            if doc_id0 != doc_id1 {
                doc_ids.push(doc_id0);
            }
            i = i + 1;
        }
        doc_ids.push(unpack_doc_id(s[n - 1]));
        proof {
            assert(s@.take(n as int) =~= s@);
        }
        doc_ids
    }

    /// The same document ids, found eight words at a time: a word's document
    /// id is written when it differs from the word before it, the first lane
    /// of a block comparing against the last lane of the previous block.
    pub fn get_doc_ids_simd(&self) -> (r: Vec<u32>)
        ensures
            r@ == doc_ids_of(self@),
    {
        let s = self.0;
        let n = s.len();
        if n == 0 {
            return Vec::new();
        }
        let mut doc_ids: Vec<u32> = Vec::with_capacity(n);
        let mut last_doc_id = unpack_doc_id(s[0]);
        doc_ids.push(last_doc_id);
        proof {
            lemma_doc_ids_step(s@, 0);
            assert(s@.take(0) =~= Seq::<u64>::empty());
        }
        let mut i: usize = 1;
        while i < n
            invariant
                n == s@.len(),
                1 <= i <= n,
                last_doc_id == doc_of(s@[i - 1]),
                doc_ids@ == doc_ids_of(s@.take(i as int)),
            decreases n - i,
        {
            let end = if n - i >= 8 {
                i + 8
            } else {
                n
            };
            let mut words: [u64; 8] = [0u64; 8];
            let mut x: usize = 0;
            while x < end - i
                invariant
                    i + 8 >= end,
                    end <= n,
                    i < end,
                    x <= end - i,
                    n == s@.len(),
                    forall|y: int| 0 <= y < x ==> #[trigger] words@[y] == s@[i + y],
                decreases end - i - x,
            {
                words[x] = s[i + x];
                x = x + 1;
            }
            let lanes = unpack_doc_id_simd(words);
            let mut lane: usize = 0;
            while lane < end - i
                invariant
                    i + 8 >= end,
                    end <= n,
                    i < end,
                    lane <= end - i,
                    n == s@.len(),
                    1 <= i,
                    forall|y: int| 0 <= y < end - i ==> lanes@[y] == doc_of(s@[i + y]),
                    last_doc_id == doc_of(s@[i + lane - 1]),
                    doc_ids@ == doc_ids_of(s@.take(i + lane)),
                decreases end - i - lane,
            {
                let doc_id = lanes[lane];
                proof {
                    lemma_doc_ids_step(s@, i + lane);
                }
                if doc_id != last_doc_id {
                    doc_ids.push(doc_id);
                }
                last_doc_id = doc_id;
                lane = lane + 1;
            }
            i = end;
        }
        proof {
            assert(s@.take(n as int) =~= s@);
        }
        doc_ids
    }
}

/// Concatenating two posting lists whose keys do not interleave gives their
/// union: a well-formed list whose bitmap under each key is the or of theirs.
pub proof fn lemma_concat_union(a: Seq<u64>, b: Seq<u64>)
    requires
        wf_packed(a),
        wf_packed(b),
        keys_before(a, b),
    ensures
        wf_packed(a + b),
        forall|k: int| #[trigger] bm(a + b, k) == bm(a, k) | bm(b, k),
    decreases b.len(),
{
    let ab = a + b;
    assert forall|i: int, j: int| 0 <= i < j < ab.len() implies key_of(#[trigger] ab[i]) < key_of(
        #[trigger] ab[j],
    ) by {
        if j < a.len() {
            assert(key_of(a[i]) < key_of(a[j]));
        } else if i >= a.len() {
            assert(key_of(b[i - a.len()]) < key_of(b[j - a.len()]));
        } else {
            assert(key_of(a[i]) < key_of(b[j - a.len()]));
        }
    }
    assert forall|i: int| 0 <= i < ab.len() implies bits_of(#[trigger] ab[i]) != 0 by {
        if i < a.len() {
            assert(bits_of(a[i]) != 0);
        } else {
            assert(bits_of(b[i - a.len()]) != 0);
        }
    }
    if b.len() == 0 {
        assert(ab =~= a);
        assert forall|k: int| #[trigger] bm(a + b, k) == bm(a, k) | bm(b, k) by {
            lemma_or_bits(0, bm(a, k));
        }
    } else {
        let b0 = b.drop_last();
        assert(ab.drop_last() =~= a + b0);
        assert(keys_before(a, b0)) by {
            assert forall|i: int, j: int| 0 <= i < a.len() && 0 <= j < b0.len() implies key_of(
                #[trigger] a[i],
            ) < key_of(#[trigger] b0[j]) by {
                assert(key_of(a[i]) < key_of(b[j]));
            }
        }
        assert(wf_packed(b0)) by {
            assert forall|i: int, j: int| 0 <= i < j < b0.len() implies key_of(#[trigger] b0[i])
                < key_of(#[trigger] b0[j]) by {
                assert(key_of(b[i]) < key_of(b[j]));
            }
            assert forall|i: int| 0 <= i < b0.len() implies bits_of(#[trigger] b0[i]) != 0 by {
                assert(bits_of(b[i]) != 0);
            }
        }
        lemma_concat_union(a, b0);
        assert forall|k: int| #[trigger] bm(a + b, k) == bm(a, k) | bm(b, k) by {
            if key_of(b.last()) == k {
                assert forall|i: int| 0 <= i < a.len() implies key_of(#[trigger] a[i]) != k by {
                    assert(key_of(a[i]) < key_of(b[b.len() - 1]));
                }
                crate::packed::lemma_bm_absent(a, k);
                lemma_or_bits(0, bits_of(b.last()));
            } else {
                assert(bm(a + b, k) == bm(a + b0, k));
            }
        }
    }
}

impl<'a, A> RoaringishPackedKind<'a, A> {
    /// The words, little-endian, as stored in the posting file.
    pub fn as_bytes(&self) -> (r: Vec<u8>)
        ensures
            r@ == list_bytes(self@),
    {
        let s: &[u64] = match self {
            RoaringishPackedKind::Owned(p) => p.0.as_slice(),
            RoaringishPackedKind::Archived(p) => p.0,
        };
        let mut out: Vec<u8> = Vec::new();
        let mut i: usize = 0;
        while i < s.len()
            invariant
                i <= s@.len(),
                s@ == self@,
                out@ == list_bytes(s@.take(i as int)),
            decreases s@.len() - i,
        {
            let w = s[i];
            out.push(w as u8);
            out.push((w >> 8) as u8);
            out.push((w >> 16) as u8);
            out.push((w >> 24) as u8);
            out.push((w >> 32) as u8);
            out.push((w >> 40) as u8);
            out.push((w >> 48) as u8);
            out.push((w >> 56) as u8);
            proof {
                assert(s@.take(i + 1).drop_last() =~= s@.take(i as int));
                assert(out@ =~= list_bytes(s@.take(i as int)) + word_bytes(w));
            }
            i = i + 1;
        }
        proof {
            assert(s@.take(s@.len() as int) =~= s@);
        }
        out
    }

    /// Appends `other` after `self`; valid as a posting list when every key of
    /// `self` is below every key of `other` (see `lemma_concat_union`).
    pub fn concat<'b>(self, other: RoaringishPackedKind<'b, A>) -> (r: RoaringishPackedKind<'b, A>)
        requires
            other is Archived,
        ensures
            r is Owned,
            r@ == self@ + other@,
    {
        match (self, other) {
            (RoaringishPackedKind::Owned(lhs), RoaringishPackedKind::Archived(rhs)) => {
                let mut v = lhs.0;
                v.extend_from_slice(rhs.0);
                RoaringishPackedKind::Owned(RoaringishPacked(v))
            },
            (RoaringishPackedKind::Archived(lhs), RoaringishPackedKind::Archived(rhs)) => {
                let mut v: Vec<u64> = Vec::with_capacity(lhs.0.len());
                v.extend_from_slice(lhs.0);
                v.extend_from_slice(rhs.0);
                RoaringishPackedKind::Owned(RoaringishPacked(v))
            },
            (_, RoaringishPackedKind::Owned(_)) => {
                proof {
                    assert(false);
                }
                RoaringishPackedKind::Owned(RoaringishPacked(Vec::new()))
            },
        }
    }
}

/// Reads a posting list stored little-endian in `bytes`; `None` when the
/// length is not a whole number of words.
pub fn words_from_bytes(bytes: &[u8]) -> (r: Option<Vec<u64>>)
    ensures
        r is None <==> bytes@.len() % 8 != 0,
        r is Some ==> r->0@.len() * 8 == bytes@.len() && forall|i: int|
            0 <= i < r->0@.len() ==> #[trigger] r->0@[i] == word_at(bytes@, i),
{
    if bytes.len() % 8 != 0 {
        return None;
    }
    let n = bytes.len() / 8;
    let mut out: Vec<u64> = Vec::with_capacity(n);
    let mut i: usize = 0;
    while i < n
        invariant
            n * 8 == bytes@.len(),
            bytes@.len() <= usize::MAX,
            i <= n,
            out@.len() == i,
            forall|x: int| 0 <= x < i ==> #[trigger] out@[x] == word_at(bytes@, x),
        decreases n - i,
    {
        assert(8 * i + 8 <= 8 * n) by (nonlinear_arith)
            requires
                i < n,
        ;
        let b = 8 * i;
        let w = (bytes[b] as u64) | ((bytes[b + 1] as u64) << 8) | ((bytes[b + 2] as u64) << 16)
            | ((bytes[b + 3] as u64) << 24) | ((bytes[b + 4] as u64) << 32) | ((bytes[b + 5] as u64)
            << 40) | ((bytes[b + 6] as u64) << 48) | ((bytes[b + 7] as u64) << 56);
        out.push(w);
        i = i + 1;
    }
    Some(out)
}

/// Whether `words` is a well-formed posting list: keys strictly ascending and
/// no empty bitmap.
pub fn is_well_formed(words: &[u64]) -> (r: bool)
    ensures
        r == wf_packed(words@),
{
    let n = words.len();
    let mut i: usize = 0;
    while i < n
        invariant
            n == words@.len(),
            i <= n,
            forall|x: int, y: int| 0 <= x < y < i ==> key_of(#[trigger] words@[x]) < key_of(
                #[trigger] words@[y],
            ),
            forall|x: int| 0 <= x < i ==> bits_of(#[trigger] words@[x]) != 0,
        decreases n - i,
    {
        if unpack_values(words[i]) == 0 {
            return false;
        }
        if i > 0 && clear_values(words[i - 1]) >= clear_values(words[i]) {
            proof {
                assert(!(key_of(words@[i - 1]) < key_of(words@[i as int])));
            }
            return false;
        }
        proof {
            assert forall|x: int, y: int| 0 <= x < y < i + 1 implies key_of(#[trigger] words@[x])
                < key_of(#[trigger] words@[y]) by {
                if y == i && x < i - 1 {
                    assert(key_of(words@[x]) < key_of(words@[i - 1]));
                }
            }
        }
        i = i + 1;
    }
    true
}

/// The posting list of a single position `p` of document `doc`.
pub open spec fn single(doc: int, p: int) -> Seq<u64> {
    seq![crate::packed::word(doc * 65536 + p / 16, (1u16 << ((p % 16) as u16)))]
}

/// Concatenating two posting lists whose keys do not interleave records
/// exactly the positions of both; a single-position list records exactly its
/// position. With the contract of `push`, pushing the sorted positions of a
/// document records the same positions as concatenating their single-position
/// lists in order.
pub proof fn lemma_concat_positions(a: Seq<u64>, b: Seq<u64>, d: int, p: int)
    requires
        wf_packed(a),
        wf_packed(b),
        keys_before(a, b),
        0 <= p < 1048576,
    ensures
        has_pos(a + b, d, p) <==> has_pos(a, d, p) || has_pos(b, d, p),
{
    lemma_concat_union(a, b);
    let k = d * 65536 + p / 16;
    let x = bm(a, k);
    let y = bm(b, k);
    let bit = (p % 16) as u16;
    assert(bit < 16 ==> (((x | y) >> bit) & 1 == 1 <==> ((x >> bit) & 1 == 1 || (y >> bit) & 1 == 1)))
        by (bit_vector);
}

/// A single-position list records exactly its position.
pub proof fn lemma_single_positions(doc: int, p: int, d: int, q: int)
    requires
        0 <= doc < 0x1_0000_0000,
        0 <= p < 1048576,
        0 <= q < 1048576,
    ensures
        wf_packed(single(doc, p)),
        has_pos(single(doc, p), d, q) <==> d == doc && q == p,
{
    let k = doc * 65536 + p / 16;
    let v = 1u16 << ((p % 16) as u16);
    let s = single(doc, p);
    crate::packed::lemma_word_of(k, v);
    lemma_bit_or_single(0, (p % 16) as u16, (q % 16) as u16);
    lemma_bit_or_single(0, (p % 16) as u16, 0);
    assert(s.drop_last() =~= Seq::<u64>::empty());
    let kq = d * 65536 + q / 16;
    lemma_or_bits(0, v);
    assert(bm(s.drop_last(), kq) == 0);
    assert(bm(s, kq) == if kq == k {
        v
    } else {
        0
    });
    if kq == k {
        lemma_key_split(d, q / 16, doc, p / 16);
        assert(has_pos(s, d, q) <==> q % 16 == p % 16);
    } else {
        lemma_no_bit((q % 16) as u16);
        if d == doc && q == p {
            assert(kq == k);
        }
    }
}

proof fn lemma_word_from_bytes(w: u64)
    ensures
        (w as u8 as u64) | (((w >> 8u64) as u8 as u64) << 8u64) | (((w >> 16u64) as u8 as u64)
            << 16u64) | (((w >> 24u64) as u8 as u64) << 24u64) | (((w >> 32u64) as u8 as u64)
            << 32u64) | (((w >> 40u64) as u8 as u64) << 40u64) | (((w >> 48u64) as u8 as u64)
            << 48u64) | (((w >> 56u64) as u8 as u64) << 56u64) == w,
{
    assert((w as u8 as u64) | (((w >> 8u64) as u8 as u64) << 8u64) | (((w >> 16u64) as u8 as u64)
        << 16u64) | (((w >> 24u64) as u8 as u64) << 24u64) | (((w >> 32u64) as u8 as u64)
        << 32u64) | (((w >> 40u64) as u8 as u64) << 40u64) | (((w >> 48u64) as u8 as u64)
        << 48u64) | (((w >> 56u64) as u8 as u64) << 56u64) == w) by (bit_vector);
}

/// Reading back the bytes a posting list is stored as gives its words.
pub proof fn lemma_bytes_round_trip(s: Seq<u64>)
    ensures
        list_bytes(s).len() == 8 * s.len(),
        forall|i: int| 0 <= i < s.len() ==> #[trigger] word_at(list_bytes(s), i) == s[i],
    decreases s.len(),
{
    if s.len() > 0 {
        let s0 = s.drop_last();
        lemma_bytes_round_trip(s0);
        let b = list_bytes(s);
        let b0 = list_bytes(s0);
        assert(b == b0 + word_bytes(s.last()));
        assert forall|i: int| 0 <= i < s.len() implies #[trigger] word_at(list_bytes(s), i) == s[i] by {
            if i < s.len() - 1 {
                assert(word_at(b0, i) == s0[i]);
                assert(8 * i + 7 < 8 * s0.len());
                assert(b[8 * i] == b0[8 * i]);
                assert(b[8 * i + 1] == b0[8 * i + 1]);
                assert(b[8 * i + 2] == b0[8 * i + 2]);
                assert(b[8 * i + 3] == b0[8 * i + 3]);
                assert(b[8 * i + 4] == b0[8 * i + 4]);
                assert(b[8 * i + 5] == b0[8 * i + 5]);
                assert(b[8 * i + 6] == b0[8 * i + 6]);
                assert(b[8 * i + 7] == b0[8 * i + 7]);
            } else {
                lemma_word_from_bytes(s.last());
                assert(8 * i == 8 * s0.len());
            }
        }
    }
}

} // verus!
