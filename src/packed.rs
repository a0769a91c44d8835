//! The 64-bit packed posting word: `doc_id (32) | group (16) | value bitmap (16)`.
//!
//! A position `p` of a document is stored as group `p / 16` and bit `p % 16`
//! of the bitmap. The 48 high bits form the *key* of a word, which orders the
//! words of a posting list (document major, group minor).
use vstd::prelude::*;

verus! {

/// Largest position that can be stored.
pub const MAX_VALUE: u32 = 1048560;

/// Adding this to a packed word moves it to the next group.
pub const ADD_ONE_GROUP: u64 = 65536;

/// Key of a packed word: `doc_id * 65536 + group`.
pub open spec fn key_of(w: u64) -> int {
    w as int / 65536
}

/// Value bitmap of a packed word.
pub open spec fn bits_of(w: u64) -> u16 {
    (w as int % 65536) as u16
}

/// Document id of a packed word.
pub open spec fn doc_of(w: u64) -> int {
    w as int / 0x1_0000_0000
}

/// The word with the given key and bitmap.
pub open spec fn word(key: int, bits: u16) -> u64 {
    (key * 65536 + bits as int) as u64
}

/// Keys strictly ascending.
pub open spec fn sorted_keys(s: Seq<u64>) -> bool {
    forall|i: int, j: int| 0 <= i < j < s.len() ==> key_of(#[trigger] s[i]) < key_of(#[trigger] s[j])
}

/// No word has an empty bitmap.
pub open spec fn nonzero_bits(s: Seq<u64>) -> bool {
    forall|i: int| 0 <= i < s.len() ==> bits_of(#[trigger] s[i]) != 0
}

/// A well-formed posting list: sorted, coalesced, no empty bitmap.
pub open spec fn wf_packed(s: Seq<u64>) -> bool {
    sorted_keys(s) && nonzero_bits(s)
}

/// Bitmap stored under key `k` (zero when no word has that key).
pub open spec fn bm(s: Seq<u64>, k: int) -> u16
    decreases s.len(),
{
    if s.len() == 0 {
        0
    } else if key_of(s.last()) == k {
        bits_of(s.last())
    } else {
        bm(s.drop_last(), k)
    }
}

/// Whether bit `b` of bitmap `v` is set.
pub open spec fn bit_set(v: u16, b: int) -> bool {
    0 <= b < 16 && (v >> (b as u16)) & 1 == 1
}

/// Whether position `p` of document `doc` is recorded in `s`.
pub open spec fn has_pos(s: Seq<u64>, doc: int, p: int) -> bool {
    bit_set(bm(s, doc * 65536 + p / 16), p % 16)
}

pub proof fn lemma_word_parts(w: u64)
    ensures
        w & !0xFFFFu64 == w - w % 65536,
        w as u16 == w % 65536,
        w >> 32u64 == w / 0x1_0000_0000,
        (w >> 16u64) as u16 == (w / 65536) % 65536,
        w & !0xFFFF_FFFFu64 == w - w % 0x1_0000_0000,
        w & 0xFFFFu64 == w % 65536,
{
    assert(w & !0xFFFFu64 == w - w % 65536) by (bit_vector);
    assert(w as u16 == w % 65536) by (bit_vector);
    assert(w >> 32u64 == w / 0x1_0000_0000) by (bit_vector);
    assert((w >> 16u64) as u16 == (w / 65536) % 65536) by (bit_vector);
    assert(w & !0xFFFF_FFFFu64 == w - w % 0x1_0000_0000) by (bit_vector);
    assert(w & 0xFFFFu64 == w % 65536) by (bit_vector);
}

pub proof fn lemma_or_low(hi: u64, v: u64)
    requires
        hi % 65536 == 0,
        v < 65536,
    ensures
        hi | v == hi + v,
{
    assert(hi % 65536 == 0 && v < 65536 ==> hi | v == hi + v) by (bit_vector);
}

pub proof fn lemma_key_bits(w: u64)
    ensures
        w == key_of(w) * 65536 + bits_of(w),
        word(key_of(w), bits_of(w)) == w,
{
}

pub proof fn lemma_word_of(key: int, bits: u16)
    requires
        0 <= key < 0x1_0000_0000_0000,
    ensures
        key_of(word(key, bits)) == key,
        bits_of(word(key, bits)) == bits,
{
}

/// Group part of a position.
pub fn group(val: u32) -> (r: u16)
    requires
        val <= MAX_VALUE,
    ensures
        r == val / 16,
{
    (val / 16) as u16
}

/// Value part of a position.
pub fn value(val: u32) -> (r: u16)
    ensures
        r == val % 16,
{
    (val % 16) as u16
}

/// Group and value parts of a position.
pub fn gv(val: u32) -> (r: (u16, u16))
    requires
        val <= MAX_VALUE,
    ensures
        r.0 == val / 16,
        r.1 == val % 16,
{
    (group(val), value(val))
}

/// Puts the document id in the 32 high bits.
pub fn pack_doc_id(doc_id: u32) -> (r: u64)
    ensures
        r == doc_id as int * 0x1_0000_0000,
{
    assert((doc_id as u64) << 32u64 == doc_id as u64 * 0x1_0000_0000) by (bit_vector);
    (doc_id as u64) << 32
}

/// Puts the group in the middle 16 bits.
pub fn pack_group(group: u16) -> (r: u64)
    ensures
        r == group as int * 65536,
{
    assert((group as u64) << 16u64 == group as u64 * 65536) by (bit_vector);
    (group as u64) << 16
}

/// The bitmap with only bit `value` set.
pub fn pack_value(value: u16) -> (r: u64)
    requires
        value < 16,
    ensures
        r == (1u16 << value) as u64,
        r == 1u64 << value,
        r < 65536,
        r != 0,
{
    assert(value < 16 ==> (1u64 << value) == (1u16 << value) as u64 && (1u64 << value) < 65536
        && (1u64 << value) != 0) by (bit_vector);
    1u64 << value
}

/// Packs a document id (already shifted) and a group together.
pub fn pack_doc_id_group(packed_doc_id: u64, group: u16) -> (r: u64)
    requires
        packed_doc_id % 0x1_0000_0000 == 0,
    ensures
        r == packed_doc_id + group as int * 65536,
        r % 65536 == 0,
{
    let g = pack_group(group);
    assert(packed_doc_id % 0x1_0000_0000 == 0 && g < 0x1_0000_0000 ==> packed_doc_id | g
        == packed_doc_id + g) by (bit_vector);
    packed_doc_id | g
}

/// Packs a document id (already shifted), a group and a single value bit.
pub fn pack(packed_doc_id: u64, group: u16, value: u16) -> (r: u64)
    requires
        packed_doc_id % 0x1_0000_0000 == 0,
        value < 16,
    ensures
        key_of(r) == packed_doc_id / 65536 + group as int,
        bits_of(r) == 1u16 << value,
{
    let dg = pack_doc_id_group(packed_doc_id, group);
    let v = pack_value(value);
    proof {
        lemma_or_low(dg, v);
    }
    dg | v
}

/// Clears the value bitmap.
pub fn clear_values(packed: u64) -> (r: u64)
    ensures
        r == packed - packed % 65536,
        r == key_of(packed) * 65536,
{
    proof {
        lemma_word_parts(packed);
    }
    packed & !0xFFFF
}

/// Clears the group and the value bitmap.
pub fn clear_group_values(packed: u64) -> (r: u64)
    ensures
        r == packed - packed % 0x1_0000_0000,
        r == doc_of(packed) * 0x1_0000_0000,
{
    proof {
        lemma_word_parts(packed);
    }
    packed & !0xFFFF_FFFF
}

/// The document id of a packed word.
pub fn unpack_doc_id(packed: u64) -> (r: u32)
    ensures
        r == doc_of(packed),
{
    proof {
        lemma_word_parts(packed);
    }
    (packed >> 32) as u32
}

/// The group of a packed word.
pub fn unpack_group(packed: u64) -> (r: u16)
    ensures
        r == key_of(packed) % 65536,
{
    proof {
        lemma_word_parts(packed);
    }
    (packed >> 16) as u16
}

/// Clears the value bitmaps of eight words.
pub fn clear_values_simd(packed: [u64; 8]) -> (r: [u64; 8])
    ensures
        forall|x: int| 0 <= x < 8 ==> #[trigger] r@[x] == key_of(packed@[x]) * 65536,
{
    let mut out: [u64; 8] = [0u64; 8];
    let mut x: usize = 0;
    while x < 8
        invariant
            x <= 8,
            forall|t: int| 0 <= t < x ==> #[trigger] out@[t] == key_of(packed@[t]) * 65536,
        decreases 8 - x,
    {
        out[x] = clear_values(packed[x]);
        x = x + 1;
    }
    out
}

/// The value bitmaps of eight words.
pub fn unpack_values_simd(packed: [u64; 8]) -> (r: [u16; 8])
    ensures
        forall|x: int| 0 <= x < 8 ==> #[trigger] r@[x] == bits_of(packed@[x]),
{
    let mut out: [u16; 8] = [0u16; 8];
    let mut x: usize = 0;
    while x < 8
        invariant
            x <= 8,
            forall|t: int| 0 <= t < x ==> #[trigger] out@[t] == bits_of(packed@[t]),
        decreases 8 - x,
    {
        out[x] = unpack_values(packed[x]);
        x = x + 1;
    }
    out
}

/// The document ids of eight words.
pub fn unpack_doc_id_simd(packed: [u64; 8]) -> (r: [u32; 8])
    ensures
        forall|x: int| 0 <= x < 8 ==> #[trigger] r@[x] == doc_of(packed@[x]),
{
    let mut out: [u32; 8] = [0u32; 8];
    let mut x: usize = 0;
    while x < 8
        invariant
            x <= 8,
            forall|t: int| 0 <= t < x ==> #[trigger] out@[t] == doc_of(packed@[t]),
        decreases 8 - x,
    {
        out[x] = unpack_doc_id(packed[x]);
        x = x + 1;
    }
    out
}

/// The value bitmap of a packed word.
pub fn unpack_values(packed: u64) -> (r: u16)
    ensures
        r == bits_of(packed),
{
    proof {
        lemma_word_parts(packed);
    }
    packed as u16
}


pub proof fn lemma_bm_absent(s: Seq<u64>, k: int)
    requires
        forall|i: int| 0 <= i < s.len() ==> key_of(#[trigger] s[i]) != k,
    ensures
        bm(s, k) == 0,
    decreases s.len(),
{
    if s.len() > 0 {
        assert(key_of(s[s.len() - 1]) != k);
        lemma_bm_absent(s.drop_last(), k);
    }
}

pub proof fn lemma_bm_at(s: Seq<u64>, i: int)
    requires
        sorted_keys(s),
        0 <= i < s.len(),
    ensures
        bm(s, key_of(s[i])) == bits_of(s[i]),
    decreases s.len(),
{
    if i < s.len() - 1 {
        assert(key_of(s[i]) < key_of(s[s.len() - 1]));
        assert(s.drop_last()[i] == s[i]);
        lemma_bm_at(s.drop_last(), i);
    }
}

pub proof fn lemma_bm_push(s: Seq<u64>, w: u64, k: int)
    ensures
        bm(s.push(w), k) == if key_of(w) == k { bits_of(w) } else { bm(s, k) },
{
    assert(s.push(w).drop_last() =~= s);
}

pub proof fn lemma_bm_update_last(s: Seq<u64>, w: u64, k: int)
    requires
        s.len() > 0,
    ensures
        bm(s.update(s.len() - 1, w), k) == if key_of(w) == k {
            bits_of(w)
        } else {
            bm(s.drop_last(), k)
        },
{
    assert(s.update(s.len() - 1, w).drop_last() =~= s.drop_last());
}

/// In a sorted list, a key below a word's key is looked up in the part before it.
pub proof fn lemma_bm_take(s: Seq<u64>, a: int, k: int)
    requires
        sorted_keys(s),
        0 <= a <= s.len(),
        a < s.len() ==> k < key_of(s[a]),
    ensures
        bm(s, k) == bm(s.take(a), k),
    decreases s.len(),
{
    if a < s.len() {
        assert(key_of(s[s.len() - 1]) != k) by {
            if a < s.len() - 1 {
                assert(key_of(s[a]) < key_of(s[s.len() - 1]));
            }
        }
        assert(s.drop_last().take(a) =~= s.take(a));
        lemma_bm_take(s.drop_last(), a, k);
    } else {
        assert(s.take(a) =~= s);
    }
}

/// Dropping a prefix keeps every key that is not in that prefix.
pub proof fn lemma_bm_skip(s: Seq<u64>, a: int, k: int)
    requires
        0 <= a <= s.len(),
        forall|i: int| 0 <= i < a ==> key_of(#[trigger] s[i]) != k,
    ensures
        bm(s, k) == bm(s.skip(a), k),
    decreases s.len(),
{
    if a == s.len() {
        lemma_bm_absent(s, k);
        assert(s.skip(a).len() == 0);
    } else {
        assert(s.skip(a).drop_last() =~= s.drop_last().skip(a));
        lemma_bm_skip(s.drop_last(), a, k);
    }
}

/// In a sorted list, every key above the last one is absent.
pub proof fn lemma_bm_above(s: Seq<u64>, k: int)
    requires
        sorted_keys(s),
        s.len() > 0 ==> key_of(s.last()) < k,
    ensures
        bm(s, k) == 0,
{
    assert forall|i: int| 0 <= i < s.len() implies key_of(#[trigger] s[i]) != k by {
        if i < s.len() - 1 {
            assert(key_of(s[i]) < key_of(s[s.len() - 1]));
        }
    }
    lemma_bm_absent(s, k);
}

/// In a sorted list, every key below the first one is absent.
pub proof fn lemma_bm_below(s: Seq<u64>, k: int)
    requires
        sorted_keys(s),
        s.len() > 0 ==> k < key_of(s[0]),
    ensures
        bm(s, k) == 0,
{
    assert forall|i: int| 0 <= i < s.len() implies key_of(#[trigger] s[i]) != k by {
        if i > 0 {
            assert(key_of(s[0]) < key_of(s[i]));
        }
    }
    lemma_bm_absent(s, k);
}

/// A well-formed list is determined by its bitmaps: two well-formed lists that
/// agree on every key are the same list.
pub proof fn lemma_canonical(a: Seq<u64>, b: Seq<u64>)
    requires
        wf_packed(a),
        wf_packed(b),
        forall|k: int| #[trigger] bm(a, k) == bm(b, k),
    ensures
        a == b,
    decreases a.len() + b.len(),
{
    if a.len() == 0 && b.len() == 0 {
        assert(a =~= b);
    } else if b.len() == 0 {
        lemma_bm_at(a, a.len() - 1);
        assert(bm(b, key_of(a.last())) == 0);
    } else if a.len() == 0 {
        lemma_bm_at(b, b.len() - 1);
        assert(bm(a, key_of(b.last())) == 0);
    } else {
        let ka = key_of(a.last());
        let kb = key_of(b.last());
        lemma_bm_at(a, a.len() - 1);
        lemma_bm_at(b, b.len() - 1);
        if ka < kb {
            lemma_bm_above(a, kb);
        } else if kb < ka {
            lemma_bm_above(b, ka);
        } else {
            let a0 = a.drop_last();
            let b0 = b.drop_last();
            assert forall|k: int| #[trigger] bm(a0, k) == bm(b0, k) by {
                if k == ka {
                    lemma_bm_above(a0, k);
                    lemma_bm_above(b0, k);
                } else {
                    assert(bm(a, k) == bm(b, k));
                }
            }
            lemma_canonical(a0, b0);
            lemma_key_bits(a.last());
            lemma_key_bits(b.last());
            assert(bm(a, ka) == bm(b, ka));
            assert(a.last() == b.last());
            assert(a =~= a0.push(a.last()));
            assert(b =~= b0.push(b.last()));
        }
    }
}

/// Setting one more bit of a word keeps its key.
pub proof fn lemma_set_bit(w: u64, x: u16)
    requires
        x < 16,
    ensures
        key_of(w | (1u64 << x)) == key_of(w),
        bits_of(w | (1u64 << x)) == bits_of(w) | (1u16 << x),
{
    assert(x < 16 ==> (w | (1u64 << x)) / 65536 == w / 65536) by (bit_vector);
    assert(x < 16 ==> ((w | (1u64 << x)) % 65536) as u16 == ((w % 65536) as u16) | (1u16 << x))
        by (bit_vector);
}

/// Two keys built from a document and a group in range are equal only when
/// both parts are.
pub proof fn lemma_key_split(d1: int, g1: int, d2: int, g2: int)
    requires
        0 <= g1 < 65536,
        0 <= g2 < 65536,
        d1 * 65536 + g1 == d2 * 65536 + g2,
    ensures
        d1 == d2,
        g1 == g2,
{
    assert(d1 == d2) by (nonlinear_arith)
        requires
            0 <= g1 < 65536,
            0 <= g2 < 65536,
            d1 * 65536 + g1 == d2 * 65536 + g2,
    ;
}

/// A key that falls strictly between two neighbouring words (or before the
/// first, or after the last) is absent from a sorted list.
pub proof fn lemma_bm_gap(s: Seq<u64>, i: int, k: int)
    requires
        sorted_keys(s),
        -1 <= i < s.len(),
        i >= 0 ==> key_of(s[i]) < k,
        i + 1 < s.len() ==> k < key_of(s[i + 1]),
    ensures
        bm(s, k) == 0,
{
    assert forall|j: int| 0 <= j < s.len() implies key_of(#[trigger] s[j]) != k by {
        if j < i {
            assert(key_of(s[j]) < key_of(s[i]));
        } else if j > i + 1 {
            assert(key_of(s[i + 1]) < key_of(s[j]));
        }
    }
    lemma_bm_absent(s, k);
}

/// Or-ing bits into the low half of a word keeps its key.
pub proof fn lemma_or_bits(w: u64, v: u16)
    ensures
        key_of(w | (v as u64)) == key_of(w),
        bits_of(w | (v as u64)) == bits_of(w) | v,
        bits_of(w) != 0 ==> bits_of(w) | v != 0,
        0u16 | v == v,
        v | 0u16 == v,
{
    assert((w | (v as u64)) / 65536 == w / 65536) by (bit_vector);
    assert(((w | (v as u64)) % 65536) as u16 == ((w % 65536) as u16) | v) by (bit_vector);
    let b = bits_of(w);
    assert(b != 0 ==> b | v != 0) by (bit_vector);
    assert(0u16 | v == v) by (bit_vector);
    assert(v | 0u16 == v) by (bit_vector);
}

/// Looking a key up in a suffix of a sorted list.
pub proof fn lemma_bm_suffix(s: Seq<u64>, a: int, k: int)
    requires
        sorted_keys(s),
        0 <= a <= s.len(),
    ensures
        bm(s.skip(a), k) == if exists|y: int| 0 <= y < a && key_of(#[trigger] s[y]) == k {
            0
        } else {
            bm(s, k)
        },
{
    if exists|y: int| 0 <= y < a && key_of(#[trigger] s[y]) == k {
        let y = choose|y: int| 0 <= y < a && key_of(#[trigger] s[y]) == k;
        assert forall|z: int| 0 <= z < s.skip(a).len() implies key_of(#[trigger] s.skip(a)[z])
            != k by {
            assert(key_of(s[y]) < key_of(s[z + a]));
        }
        lemma_bm_absent(s.skip(a), k);
    } else {
        lemma_bm_skip(s, a, k);
    }
}

/// A key with a non-empty bitmap is the key of some word.
pub proof fn lemma_bm_present(s: Seq<u64>, k: int)
    requires
        bm(s, k) != 0,
    ensures
        exists|i: int| 0 <= i < s.len() && key_of(#[trigger] s[i]) == k,
{
    if !(exists|i: int| 0 <= i < s.len() && key_of(#[trigger] s[i]) == k) {
        lemma_bm_absent(s, k);
    }
}

/// In a sorted list a present key is at least the first key and below the
/// key limit.
pub proof fn lemma_bm_range(s: Seq<u64>, k: int)
    requires
        sorted_keys(s),
        bm(s, k) != 0,
    ensures
        s.len() > 0,
        key_of(s[0]) <= k,
        k < 0x1_0000_0000_0000,
{
    lemma_bm_present(s, k);
    let i = choose|i: int| 0 <= i < s.len() && key_of(#[trigger] s[i]) == k;
    if i > 0 {
        assert(key_of(s[0]) < key_of(s[i]));
    }
}

/// The empty bitmap has no bit set.
pub proof fn lemma_no_bit(b: u16)
    ensures
        (0u16 >> b) & 1 == 0,
{
    assert((0u16 >> b) & 1 == 0) by (bit_vector);
}

/// Bit `b` of `v | (1 << x)`.
pub proof fn lemma_bit_or_single(v: u16, x: u16, b: u16)
    requires
        x < 16,
        b < 16,
    ensures
        ((v | (1u16 << x)) >> b) & 1 == 1 <==> ((v >> b) & 1 == 1 || b == x),
        ((1u16 << x) >> b) & 1 == 1 <==> b == x,
        (v | (1u16 << x)) != 0,
        (1u16 << x) != 0,
{
    assert(x < 16 ==> (v | (1u16 << x)) != 0 && (1u16 << x) != 0) by (bit_vector);
    assert(x < 16 && b < 16 ==> (((v | (1u16 << x)) >> b) & 1 == 1 <==> ((v >> b) & 1 == 1
        || b == x))) by (bit_vector);
    assert(x < 16 && b < 16 ==> (((1u16 << x) >> b) & 1 == 1 <==> b == x)) by (bit_vector);
}

/// Two bitmaps with the same bits are equal.
proof fn lemma_bits_eq(x: u16, y: u16)
    requires
        ((x >> 0u16) & 1 == 1) == ((y >> 0u16) & 1 == 1),
        ((x >> 1u16) & 1 == 1) == ((y >> 1u16) & 1 == 1),
        ((x >> 2u16) & 1 == 1) == ((y >> 2u16) & 1 == 1),
        ((x >> 3u16) & 1 == 1) == ((y >> 3u16) & 1 == 1),
        ((x >> 4u16) & 1 == 1) == ((y >> 4u16) & 1 == 1),
        ((x >> 5u16) & 1 == 1) == ((y >> 5u16) & 1 == 1),
        ((x >> 6u16) & 1 == 1) == ((y >> 6u16) & 1 == 1),
        ((x >> 7u16) & 1 == 1) == ((y >> 7u16) & 1 == 1),
        ((x >> 8u16) & 1 == 1) == ((y >> 8u16) & 1 == 1),
        ((x >> 9u16) & 1 == 1) == ((y >> 9u16) & 1 == 1),
        ((x >> 10u16) & 1 == 1) == ((y >> 10u16) & 1 == 1),
        ((x >> 11u16) & 1 == 1) == ((y >> 11u16) & 1 == 1),
        ((x >> 12u16) & 1 == 1) == ((y >> 12u16) & 1 == 1),
        ((x >> 13u16) & 1 == 1) == ((y >> 13u16) & 1 == 1),
        ((x >> 14u16) & 1 == 1) == ((y >> 14u16) & 1 == 1),
        ((x >> 15u16) & 1 == 1) == ((y >> 15u16) & 1 == 1),
    ensures
        x == y,
{
    assert(
        ((x >> 0u16) & 1 == 1) == ((y >> 0u16) & 1 == 1)
            && ((x >> 1u16) & 1 == 1) == ((y >> 1u16) & 1 == 1)
            && ((x >> 2u16) & 1 == 1) == ((y >> 2u16) & 1 == 1)
            && ((x >> 3u16) & 1 == 1) == ((y >> 3u16) & 1 == 1)
            && ((x >> 4u16) & 1 == 1) == ((y >> 4u16) & 1 == 1)
            && ((x >> 5u16) & 1 == 1) == ((y >> 5u16) & 1 == 1)
            && ((x >> 6u16) & 1 == 1) == ((y >> 6u16) & 1 == 1)
            && ((x >> 7u16) & 1 == 1) == ((y >> 7u16) & 1 == 1)
            && ((x >> 8u16) & 1 == 1) == ((y >> 8u16) & 1 == 1)
            && ((x >> 9u16) & 1 == 1) == ((y >> 9u16) & 1 == 1)
            && ((x >> 10u16) & 1 == 1) == ((y >> 10u16) & 1 == 1)
            && ((x >> 11u16) & 1 == 1) == ((y >> 11u16) & 1 == 1)
            && ((x >> 12u16) & 1 == 1) == ((y >> 12u16) & 1 == 1)
            && ((x >> 13u16) & 1 == 1) == ((y >> 13u16) & 1 == 1)
            && ((x >> 14u16) & 1 == 1) == ((y >> 14u16) & 1 == 1)
            && ((x >> 15u16) & 1 == 1) == ((y >> 15u16) & 1 == 1)
            ==> x == y
    ) by (bit_vector);
}

/// A well-formed posting list is determined by the positions it records: two
/// that record the same positions of the same documents are the same words.
/// So building the same corpus twice gives the same posting lists.
pub proof fn lemma_same_positions_same_list(a: Seq<u64>, b: Seq<u64>)
    requires
        wf_packed(a),
        wf_packed(b),
        forall|d: int, p: int| 0 <= p < 1048576 ==> (#[trigger] has_pos(a, d, p) <==> has_pos(b, d, p)),
    ensures
        a == b,
{
    assert forall|k: int| #[trigger] bm(a, k) == bm(b, k) by {
        if k < 0 {
            lemma_bm_absent(a, k);
            lemma_bm_absent(b, k);
        } else {
            let d = k / 65536;
            let g = k % 65536;
            assert forall|bb: int| 0 <= bb < 16 implies bit_set(bm(a, k), bb) == bit_set(bm(b, k), bb) by {
                let p = 16 * g + bb;
                assert(p / 16 == g && p % 16 == bb);
                assert(d * 65536 + p / 16 == k);
                assert(has_pos(a, d, p) == has_pos(b, d, p));
            }
        assert(bit_set(bm(a, k), 0) == bit_set(bm(b, k), 0));
        assert(bit_set(bm(a, k), 1) == bit_set(bm(b, k), 1));
        assert(bit_set(bm(a, k), 2) == bit_set(bm(b, k), 2));
        assert(bit_set(bm(a, k), 3) == bit_set(bm(b, k), 3));
        assert(bit_set(bm(a, k), 4) == bit_set(bm(b, k), 4));
        assert(bit_set(bm(a, k), 5) == bit_set(bm(b, k), 5));
        assert(bit_set(bm(a, k), 6) == bit_set(bm(b, k), 6));
        assert(bit_set(bm(a, k), 7) == bit_set(bm(b, k), 7));
        assert(bit_set(bm(a, k), 8) == bit_set(bm(b, k), 8));
        assert(bit_set(bm(a, k), 9) == bit_set(bm(b, k), 9));
        assert(bit_set(bm(a, k), 10) == bit_set(bm(b, k), 10));
        assert(bit_set(bm(a, k), 11) == bit_set(bm(b, k), 11));
        assert(bit_set(bm(a, k), 12) == bit_set(bm(b, k), 12));
        assert(bit_set(bm(a, k), 13) == bit_set(bm(b, k), 13));
        assert(bit_set(bm(a, k), 14) == bit_set(bm(b, k), 14));
        assert(bit_set(bm(a, k), 15) == bit_set(bm(b, k), 15));
            lemma_bits_eq(bm(a, k), bm(b, k));
        }
    }
    lemma_canonical(a, b);
}

} // verus!
