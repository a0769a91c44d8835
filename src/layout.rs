//! Layout of the posting file: each posting list starts on a 64-byte
//! boundary, and tokens longer than 511 bytes get no posting list.
use vstd::prelude::*;

verus! {

/// Longest token, in bytes, that gets a posting list.
pub const MAX_TOKEN_BYTES: usize = 511;

/// Alignment of each posting list in the posting file.
pub const BLOB_ALIGN: u64 = 64;

/// Where a posting list lies in the posting file, in bytes.
#[derive(Clone, Copy, Debug, PartialEq, Eq, Structural)]
pub struct Offset {
    pub begin: u64,
    pub len: u64,
}

/// The first multiple of 64 at or after `x`.
pub open spec fn align_up(x: int) -> int {
    (x + 63) / 64 * 64
}

/// Offsets given to posting lists of `blobs` (token length, list length in
/// bytes) written one after the other from `cursor`.
pub open spec fn layout_of(blobs: Seq<(usize, u64)>, cursor: int) -> Seq<Option<(int, int)>>
    decreases blobs.len(),
{
    if blobs.len() == 0 {
        Seq::empty()
    } else if blobs[0].0 > MAX_TOKEN_BYTES {
        seq![None] + layout_of(blobs.drop_first(), cursor)
    } else {
        let b = align_up(cursor);
        seq![Some((b, blobs[0].1 as int))] + layout_of(blobs.drop_first(), b + blobs[0].1)
    }
}

/// Start of a placed posting list.
pub open spec fn blob_begin(o: Option<(int, int)>) -> int {
    match o {
        Some((b, _)) => b,
        None => 0,
    }
}

/// End of a placed posting list.
pub open spec fn blob_end(o: Option<(int, int)>) -> int {
    match o {
        Some((b, l)) => b + l,
        None => 0,
    }
}

/// Room the posting lists of `blobs` may take: their bytes plus 64 each.
pub open spec fn room(blobs: Seq<(usize, u64)>) -> int
    decreases blobs.len(),
{
    if blobs.len() == 0 {
        0
    } else {
        blobs[0].1 + 64 + room(blobs.drop_first())
    }
}

/// Every posting list is placed on a 64-byte boundary, after the end of the
/// one before it, and all of them end within `room(blobs)` bytes of `cursor`.
pub proof fn lemma_layout_aligned(blobs: Seq<(usize, u64)>, cursor: int)
    requires
        cursor >= 0,
    ensures
        layout_of(blobs, cursor).len() == blobs.len(),
        forall|k: int|
            0 <= k < blobs.len() && (#[trigger] layout_of(blobs, cursor)[k]) is Some ==> {
                let (b, l) = layout_of(blobs, cursor)[k]->0;
                &&& b % 64 == 0
                &&& b >= cursor
                &&& l == blobs[k].1
                &&& b + l <= cursor + room(blobs)
            },
        forall|k: int, j: int|
            0 <= k < j < blobs.len() && (#[trigger] layout_of(blobs, cursor)[k]) is Some && (
            #[trigger] layout_of(blobs, cursor)[j]) is Some ==> blob_end(layout_of(blobs, cursor)[k])
                <= blob_begin(layout_of(blobs, cursor)[j]),
    decreases blobs.len(),
{
    if blobs.len() > 0 {
        let rest = blobs.drop_first();
        let b = align_up(cursor);
        assert(b % 64 == 0 && cursor <= b < cursor + 64) by (nonlinear_arith)
            requires
                b == (cursor + 63) / 64 * 64,
                cursor >= 0,
        ;
        let next = if blobs[0].0 > MAX_TOKEN_BYTES {
            cursor
        } else {
            b + blobs[0].1
        };
        lemma_layout_aligned(rest, next);
        lemma_room_nonneg(rest);
        assert(room(blobs) == blobs[0].1 + 64 + room(rest));
        let lay = layout_of(blobs, cursor);
        assert forall|k: int| 0 < k < blobs.len() implies lay[k] == layout_of(rest, next)[k - 1] by {}
        assert forall|k: int, j: int|
            0 <= k < j < blobs.len() && (#[trigger] lay[k]) is Some && (#[trigger] lay[j]) is Some
                implies blob_end(lay[k]) <= blob_begin(lay[j]) by {
            if k > 0 {
                assert(lay[k] == layout_of(rest, next)[k - 1]);
                assert(lay[j] == layout_of(rest, next)[j - 1]);
            } else {
                assert(lay[j] == layout_of(rest, next)[j - 1]);
            }
        }
    }
}

/// The first multiple of 64 at or after `x`.
pub fn align_to_64(x: u64) -> (r: u64)
    requires
        x <= u64::MAX - 63,
    ensures
        r == align_up(x as int),
        r % 64 == 0,
        x <= r < x + 64,
{
    assert((x + 63) / 64 * 64 % 64 == 0 && x <= (x + 63) / 64 * 64 < x + 64) by (nonlinear_arith);
    (x + 63) / 64 * 64
}

/// Places the posting lists of `blobs` (token length in bytes, list length in
/// bytes), in order, in a posting file: a token longer than 511 bytes gets
/// none; any other list starts at the next 64-byte boundary after the one
/// before it.
pub fn layout_blobs(blobs: &[(usize, u64)]) -> (r: Vec<Option<Offset>>)
    requires
        room(blobs@) <= u64::MAX,
    ensures
        r@.len() == blobs@.len(),
        forall|k: int|
            0 <= k < r@.len() ==> match #[trigger] r@[k] {
                Some(o) => layout_of(blobs@, 0)[k] == Some((o.begin as int, o.len as int)),
                None => layout_of(blobs@, 0)[k] is None,
            },
{
    let mut out: Vec<Option<Offset>> = Vec::new();
    let mut cursor: u64 = 0;
    let mut i: usize = 0;
    proof {
        lemma_room_split(blobs@, 0);
        assert(blobs@.skip(0) =~= blobs@);
        assert(out@.map_values(|o: Option<Offset>| match o {
            Some(o) => Some((o.begin as int, o.len as int)),
            None => None,
        }) =~= Seq::<Option<(int, int)>>::empty());
        assert(layout_of(blobs@, 0) =~= Seq::<Option<(int, int)>>::empty() + layout_of(blobs@, 0));
    }
    while i < blobs.len()
        invariant
            i <= blobs@.len(),
            out@.len() == i,
            room(blobs@) <= u64::MAX,
            cursor + room(blobs@.skip(i as int)) <= room(blobs@),
            layout_of(blobs@, 0) == out@.map_values(|o: Option<Offset>| match o {
                Some(o) => Some((o.begin as int, o.len as int)),
                None => None,
            }) + layout_of(blobs@.skip(i as int), cursor as int),
        decreases blobs@.len() - i,
    {
        let (token_len, len) = blobs[i];
        let ghost rest = blobs@.skip(i as int);
        proof {
            assert(rest[0] == blobs@[i as int]);
            assert(rest.drop_first() =~= blobs@.skip(i + 1));
            assert(room(rest) == len + 64 + room(blobs@.skip(i + 1)));
            lemma_room_nonneg(blobs@.skip(i + 1));
        }
        let ghost before = out@;
        let ghost c0 = cursor as int;
        if token_len > MAX_TOKEN_BYTES {
            out.push(None);
        } else {
            let begin = align_to_64(cursor);
            out.push(Some(Offset { begin, len }));
            cursor = begin + len;
        }
        proof {
            let f = |o: Option<Offset>| match o {
                Some(o) => Some((o.begin as int, o.len as int)),
                None => None,
            };
            assert(out@.drop_last() =~= before);
            assert(out@.map_values(f) =~= before.map_values(f).push(f(out@.last())));
            assert(layout_of(rest, c0) =~= seq![f(out@.last())] + layout_of(
                blobs@.skip(i + 1),
                cursor as int,
            ));
            assert(layout_of(blobs@, 0) =~= out@.map_values(f) + layout_of(
                blobs@.skip(i + 1),
                cursor as int,
            ));
        }
        i = i + 1;
    }
    proof {
        assert(blobs@.skip(i as int) =~= Seq::<(usize, u64)>::empty());
        let f = |o: Option<Offset>| match o {
            Some(o) => Some((o.begin as int, o.len as int)),
            None => None,
        };
        assert forall|k: int| 0 <= k < out@.len() implies match #[trigger] out@[k] {
            Some(o) => layout_of(blobs@, 0)[k] == Some((o.begin as int, o.len as int)),
            None => layout_of(blobs@, 0)[k] is None,
        } by {
            assert(layout_of(blobs@, 0)[k] == out@.map_values(f)[k]);
        }
    }
    out
}

proof fn lemma_room_split(blobs: Seq<(usize, u64)>, i: int)
    requires
        0 <= i <= blobs.len(),
    ensures
        room(blobs.skip(i)) <= room(blobs),
        room(blobs.skip(i)) >= 0,
    decreases i,
{
    if i > 0 {
        lemma_room_split(blobs, i - 1);
        let s = blobs.skip(i - 1);
        assert(s.drop_first() =~= blobs.skip(i));
        lemma_room_nonneg(blobs.skip(i));
    } else {
        assert(blobs.skip(0) =~= blobs);
        lemma_room_nonneg(blobs);
    }
}

proof fn lemma_room_nonneg(blobs: Seq<(usize, u64)>)
    ensures
        room(blobs) >= 0,
    decreases blobs.len(),
{
    if blobs.len() > 0 {
        lemma_room_nonneg(blobs.drop_first());
    }
}

/// Lexicographic order on byte strings (the order of `str`).
pub open spec fn bytes_lt(a: Seq<u8>, b: Seq<u8>) -> bool
    decreases a.len(),
{
    if a.len() == 0 {
        b.len() > 0
    } else if b.len() == 0 {
        false
    } else if a[0] != b[0] {
        a[0] < b[0]
    } else {
        bytes_lt(a.drop_first(), b.drop_first())
    }
}

proof fn lemma_bytes_lt_trans(a: Seq<u8>, b: Seq<u8>, c: Seq<u8>)
    requires
        bytes_lt(a, b),
        bytes_lt(b, c),
    ensures
        bytes_lt(a, c),
    decreases a.len(),
{
    if a.len() > 0 && b.len() > 0 && c.len() > 0 && a[0] == b[0] && b[0] == c[0] {
        lemma_bytes_lt_trans(a.drop_first(), b.drop_first(), c.drop_first());
    }
}

proof fn lemma_bytes_lt_irrefl(a: Seq<u8>)
    ensures
        !bytes_lt(a, a),
    decreases a.len(),
{
    if a.len() > 0 {
        lemma_bytes_lt_irrefl(a.drop_first());
    }
}

/// Whether `a` comes before `b` in byte order.
pub fn bytes_less(a: &[u8], b: &[u8]) -> (r: bool)
    ensures
        r == bytes_lt(a@, b@),
{
    let mut i: usize = 0;
    proof {
        assert(a@.skip(0) =~= a@);
        assert(b@.skip(0) =~= b@);
    }
    while i < a.len() && i < b.len() && a[i] == b[i]
        invariant
            i <= a@.len(),
            i <= b@.len(),
            bytes_lt(a@, b@) == bytes_lt(a@.skip(i as int), b@.skip(i as int)),
        decreases a@.len() - i,
    {
        proof {
            assert(a@.skip(i as int).drop_first() =~= a@.skip(i + 1));
            assert(b@.skip(i as int).drop_first() =~= b@.skip(i + 1));
        }
        i = i + 1;
    }
    if i == a.len() {
        i < b.len()
    } else if i == b.len() {
        false
    } else {
        a[i] < b[i]
    }
}

/// Whether two byte strings are equal.
pub fn bytes_equal(a: &[u8], b: &[u8]) -> (r: bool)
    ensures
        r == (a@ == b@),
{
    if a.len() != b.len() {
        return false;
    }
    let mut i: usize = 0;
    while i < a.len()
        invariant
            a@.len() == b@.len(),
            i <= a@.len(),
            forall|x: int| 0 <= x < i ==> a@[x] == b@[x],
        decreases a@.len() - i,
    {
        if a[i] != b[i] {
            return false;
        }
        i = i + 1;
    }
    proof {
        assert(a@ =~= b@);
    }
    true
}

/// The batches whose next token comes first in byte order, in batch order:
/// the next group of lists to merge. Empty once every batch is used up.
pub fn smallest_heads(heads: &Vec<Option<Vec<u8>>>) -> (r: Vec<usize>)
    ensures
        forall|x: int, y: int| 0 <= x < y < r@.len() ==> r@[x] < r@[y],
        forall|x: int| 0 <= x < r@.len() ==> (r@[x] as int) < heads@.len() && heads@[r@[x] as int] is Some,
        r@.len() == 0 <==> forall|b: int| 0 <= b < heads@.len() ==> heads@[b] is None,
        r@.len() > 0 ==> {
            let t = heads@[r@[0] as int]->0@;
            &&& forall|x: int| 0 <= x < r@.len() ==> heads@[r@[x] as int]->0@ == t
            &&& forall|b: int|
                0 <= b < heads@.len() && heads@[b] is Some ==> !bytes_lt(heads@[b]->0@, t)
            &&& forall|b: int|
                0 <= b < heads@.len() && heads@[b] is Some && heads@[b]->0@ == t ==> r@.contains(
                    b as usize,
                )
        },
{
    let n = heads.len();
    let mut best: usize = n;
    let mut i: usize = 0;
    while i < n
        invariant
            n == heads@.len(),
            i <= n,
            best == n || (best < i && heads@[best as int] is Some),
            best == n ==> forall|b: int| 0 <= b < i ==> heads@[b] is None,
            best < n ==> forall|b: int|
                0 <= b < i && heads@[b] is Some ==> !bytes_lt(
                    heads@[b]->0@,
                    heads@[best as int]->0@,
                ),
        decreases n - i,
    {
        match &heads[i] {
            Some(h) => {
                if best == n {
                    proof {
                        lemma_bytes_lt_irrefl(h@);
                    }
                    best = i;
                } else {
                    let cur = heads[best].as_ref().unwrap();
                    if bytes_less(h.as_slice(), cur.as_slice()) {
                        proof {
                            assert forall|b: int| 0 <= b < i + 1 && heads@[b] is Some implies !bytes_lt(
                                heads@[b]->0@,
                                h@,
                            ) by {
                                if b < i && bytes_lt(heads@[b]->0@, h@) {
                                    lemma_bytes_lt_trans(heads@[b]->0@, h@, cur@);
                                }
                                if b == i {
                                    lemma_bytes_lt_irrefl(h@);
                                }
                            }
                        }
                        best = i;
                    }
                }
            },
            None => {},
        }
        i = i + 1;
    }
    let mut out: Vec<usize> = Vec::new();
    if best == n {
        return out;
    }
    let t = heads[best].as_ref().unwrap();
    let mut b: usize = 0;
    while b < n
        invariant
            n == heads@.len(),
            best < n,
            heads@[best as int] is Some,
            t@ == heads@[best as int]->0@,
            b <= n,
            forall|x: int, y: int| 0 <= x < y < out@.len() ==> out@[x] < out@[y],
            forall|x: int| 0 <= x < out@.len() ==> out@[x] < b && heads@[out@[x] as int] is Some
                && heads@[out@[x] as int]->0@ == t@,
            forall|c: int| 0 <= c < b && heads@[c] is Some && heads@[c]->0@ == t@ ==> out@.contains(
                c as usize,
            ),
            best < b ==> out@.len() > 0 && out@[0] <= best,
        decreases n - b,
    {
        match &heads[b] {
            Some(h) => {
                if bytes_equal(h.as_slice(), t.as_slice()) {
                    let ghost old_out = out@;
                    out.push(b);
                    proof {
                        assert(out@[out@.len() - 1] == b);
                        assert forall|c: int| 0 <= c < b + 1 && heads@[c] is Some && heads@[c]->0@
                            == t@ implies out@.contains(c as usize) by {
                            if c < b {
                                assert(old_out.contains(c as usize));
                                let x = choose|x: int| 0 <= x < old_out.len() && old_out[x] == c as usize;
                                assert(out@[x] == old_out[x]);
                            } else {
                                assert(out@[out@.len() - 1] == c as usize);
                            }
                        }
                    }
                }
            },
            None => {},
        }
        b = b + 1;
    }
    proof {
        assert(out@.contains(best));
        assert(heads@[out@[0] as int]->0@ == t@);
    }
    out
}

proof fn lemma_bytes_lt_total(a: Seq<u8>, b: Seq<u8>)
    requires
        a != b,
    ensures
        bytes_lt(a, b) || bytes_lt(b, a),
    decreases a.len(),
{
    if a.len() > 0 && b.len() > 0 && a[0] == b[0] {
        assert(a.drop_first() != b.drop_first()) by {
            if a.drop_first() == b.drop_first() {
                assert(a =~= seq![a[0]] + a.drop_first());
                assert(b =~= seq![b[0]] + b.drop_first());
            }
        }
        lemma_bytes_lt_total(a.drop_first(), b.drop_first());
    } else if a.len() == 0 && b.len() == 0 {
        assert(a =~= b);
    }
}

/// A batch of `(token, words)` entries.
pub type BatchView = Seq<(Seq<u8>, Seq<u64>)>;

/// The entries of each batch come in strictly ascending token order.
pub open spec fn batch_sorted(b: BatchView) -> bool {
    forall|x: int, y: int| 0 <= x < y < b.len() ==> bytes_lt(#[trigger] b[x].0, #[trigger] b[y].0)
}

/// The words of token `t` in one batch (none when it is absent).
pub open spec fn list_in(b: BatchView, t: Seq<u8>) -> Seq<u64>
    decreases b.len(),
{
    if b.len() == 0 {
        Seq::empty()
    } else if b.last().0 == t {
        b.last().1
    } else {
        list_in(b.drop_last(), t)
    }
}

/// The words of token `t` over the first `n` batches, in batch order.
pub open spec fn lists_of(bs: Seq<BatchView>, t: Seq<u8>, n: int) -> Seq<u64>
    decreases n,
{
    if n <= 0 {
        Seq::empty()
    } else {
        lists_of(bs, t, n - 1) + list_in(bs[n - 1], t)
    }
}

/// Token `t` is the token of some entry of some batch.
pub open spec fn in_batches(bs: Seq<BatchView>, t: Seq<u8>) -> bool {
    exists|b: int, x: int| 0 <= b < bs.len() && 0 <= x < bs[b].len() && #[trigger] bs[b][x].0 == t
}

proof fn lemma_list_in_at(b: BatchView, x: int)
    requires
        batch_sorted(b),
        0 <= x < b.len(),
    ensures
        list_in(b, b[x].0) == b[x].1,
    decreases b.len(),
{
    if x < b.len() - 1 {
        assert(bytes_lt(b[x].0, b[b.len() - 1].0));
        lemma_bytes_lt_irrefl(b[x].0);
        assert(b.drop_last()[x] == b[x]);
        lemma_list_in_at(b.drop_last(), x);
    }
}

proof fn lemma_list_in_absent(b: BatchView, t: Seq<u8>)
    requires
        forall|x: int| 0 <= x < b.len() ==> (#[trigger] b[x]).0 != t,
    ensures
        list_in(b, t) == Seq::<u64>::empty(),
    decreases b.len(),
{
    if b.len() > 0 {
        assert(b[b.len() - 1].0 != t);
        assert forall|x: int| 0 <= x < b.drop_last().len() implies (#[trigger] b.drop_last()[x]).0 != t by {
            assert(b.drop_last()[x] == b[x]);
        }
        lemma_list_in_absent(b.drop_last(), t);
    }
}

/// Token `t` is the token of some entry of `r`.
pub open spec fn token_out(r: Seq<(Vec<u8>, Vec<u64>)>, t: Seq<u8>) -> bool {
    exists|o: int| 0 <= o < r.len() && r[o].0@ == t
}

/// The view of batches of `(token bytes, words)` entries.
pub open spec fn batches_view(bs: Seq<Vec<(Vec<u8>, Vec<u64>)>>) -> Seq<BatchView> {
    Seq::new(bs.len(), |b: int| Seq::new(bs[b]@.len(), |x: int| (bs[b]@[x].0@, bs[b]@[x].1@)))
}

/// Entries left in the batches from the given heads on.
pub open spec fn remaining(bv: Seq<BatchView>, heads: Seq<usize>, n: int) -> int
    decreases n,
{
    if n <= 0 {
        0
    } else {
        remaining(bv, heads, n - 1) + (bv[n - 1].len() - heads[n - 1])
    }
}

proof fn lemma_remaining_less(bv: Seq<BatchView>, h0: Seq<usize>, h1: Seq<usize>, n: int, p: int)
    requires
        0 <= p < n,
        n <= bv.len(),
        n <= h0.len(),
        n <= h1.len(),
        forall|b: int| 0 <= b < n ==> h0[b] <= #[trigger] h1[b] <= bv[b].len(),
        h0[p] < h1[p],
    ensures
        remaining(bv, h1, n) < remaining(bv, h0, n),
        remaining(bv, h1, n) >= 0,
    decreases n,
{
    if n - 1 > p {
        lemma_remaining_less(bv, h0, h1, n - 1, p);
    } else {
        lemma_remaining_le(bv, h0, h1, n - 1);
    }
}

proof fn lemma_remaining_le(bv: Seq<BatchView>, h0: Seq<usize>, h1: Seq<usize>, n: int)
    requires
        n <= bv.len(),
        n <= h0.len(),
        n <= h1.len(),
        forall|b: int| 0 <= b < n ==> h0[b] <= #[trigger] h1[b] <= bv[b].len(),
    ensures
        remaining(bv, h1, n) <= remaining(bv, h0, n),
        remaining(bv, h1, n) >= 0,
    decreases n,
{
    if n > 0 {
        lemma_remaining_le(bv, h0, h1, n - 1);
    }
}

/// A copy of a byte string.
fn copy_bytes(v: &[u8]) -> (r: Vec<u8>)
    ensures
        r@ == v@,
{
    let mut r: Vec<u8> = Vec::new();
    r.extend_from_slice(v);
    proof {
        assert(r@ =~= v@);
    }
    r
}

/// Token `t` was written, and is at most the last token written.
pub open spec fn written(out: Seq<(Seq<u8>, Seq<u64>)>, t: Seq<u8>) -> bool {
    &&& out.len() > 0
    &&& t == out.last().0 || bytes_lt(t, out.last().0)
    &&& exists|o: int| 0 <= o < out.len() && out[o].0 == t
}

/// The merge state after some tokens were written: `out` holds them in
/// ascending order with their joined lists, every consumed entry's token was
/// written and is at most the last one, every entry left is above it.
pub open spec fn merge_inv(bv: Seq<BatchView>, heads: Seq<usize>, out: Seq<(Seq<u8>, Seq<u64>)>) -> bool {
    &&& heads.len() == bv.len()
    &&& forall|b: int| 0 <= b < bv.len() ==> heads[b] <= (#[trigger] bv[b]).len()
    &&& forall|i: int, j: int| 0 <= i < j < out.len() ==> bytes_lt(#[trigger] out[i].0, #[trigger] out[j].0)
    &&& forall|o: int|
        0 <= o < out.len() ==> (#[trigger] out[o]).1 == lists_of(bv, out[o].0, bv.len() as int)
            && in_batches(bv, out[o].0)
    &&& forall|b: int, x: int|
        #![trigger bv[b][x]]
        0 <= b < bv.len() && 0 <= x < heads[b] ==> written(out, bv[b][x].0)
    &&& forall|b: int, x: int|
        0 <= b < bv.len() && heads[b] <= x < bv[b].len() && out.len() > 0 ==> bytes_lt(
            out.last().0,
            #[trigger] bv[b][x].0,
        )
}

/// The words of token `t` in batch `b` are those of its head entry when that
/// entry has token `t`, and none otherwise.
proof fn lemma_head_list(bv: Seq<BatchView>, heads: Seq<usize>, out: Seq<(Seq<u8>, Seq<u64>)>, b: int, t: Seq<u8>)
    requires
        merge_inv(bv, heads, out),
        forall|c: int| 0 <= c < bv.len() ==> batch_sorted(#[trigger] bv[c]),
        0 <= b < bv.len(),
        out.len() > 0 ==> bytes_lt(out.last().0, t),
        heads[b] < bv[b].len() ==> bv[b][heads[b] as int].0 == t || bytes_lt(t, bv[b][heads[b] as int].0),
    ensures
        list_in(bv[b], t) == if heads[b] < bv[b].len() && bv[b][heads[b] as int].0 == t {
            bv[b][heads[b] as int].1
        } else {
            Seq::<u64>::empty()
        },
{
    let bb = bv[b];
    let h = heads[b] as int;
    if h < bb.len() && bb[h].0 == t {
        lemma_list_in_at(bb, h);
    } else {
        assert forall|x: int| 0 <= x < bb.len() implies (#[trigger] bb[x]).0 != t by {
            if x < h {
                assert(0 <= b < bv.len() && 0 <= x < heads[b]);
                assert(bb[x] == bv[b][x]);
                assert(written(out, bb[x].0));
                if bb[x].0 == t {
                    if bytes_lt(bb[x].0, out.last().0) {
                        lemma_bytes_lt_trans(t, out.last().0, t);
                    }
                    lemma_bytes_lt_irrefl(t);
                }
            } else {
                if x > h {
                    assert(bytes_lt(bb[h].0, bb[x].0));
                    lemma_bytes_lt_trans(t, bb[h].0, bb[x].0);
                }
                lemma_bytes_lt_irrefl(t);
            }
        }
        lemma_list_in_absent(bb, t);
    }
}

/// Merges batches of `(token, words)` entries, each in ascending token order:
/// every token of any batch comes out once, in ascending order, with the words
/// of its entries joined in batch order.
pub fn merge_batches(batches: &Vec<Vec<(Vec<u8>, Vec<u64>)>>) -> (r: Vec<(Vec<u8>, Vec<u64>)>)
    requires
        forall|b: int| 0 <= b < batches@.len() ==> batch_sorted(#[trigger] batches_view(batches@)[b]),
    ensures
        forall|i: int, j: int|
            0 <= i < j < r@.len() ==> bytes_lt(#[trigger] r@[i].0@, #[trigger] r@[j].0@),
        forall|o: int|
            0 <= o < r@.len() ==> (#[trigger] r@[o]).1@ == lists_of(
                batches_view(batches@),
                r@[o].0@,
                batches@.len() as int,
            ) && in_batches(batches_view(batches@), r@[o].0@),
        forall|b: int, x: int|
            0 <= b < batches@.len() && 0 <= x < batches@[b]@.len() ==> token_out(
                r@,
                (#[trigger] batches@[b]@[x]).0@,
            ),
{
    let ghost bv = batches_view(batches@);
    let n = batches.len();
    let mut heads: Vec<usize> = vec![0usize; n];
    let mut out: Vec<(Vec<u8>, Vec<u64>)> = Vec::new();
    let ghost f = |e: (Vec<u8>, Vec<u64>)| (e.0@, e.1@);
    proof {
        assert(out@.map_values(f) =~= Seq::<(Seq<u8>, Seq<u64>)>::empty());
    }
    loop
        invariant
            n == batches@.len(),
            bv == batches_view(batches@),
            heads@.len() == n,
            forall|b: int| 0 <= b < n ==> batch_sorted(#[trigger] bv[b]),
            merge_inv(bv, heads@, out@.map_values(f)),
            f == (|e: (Vec<u8>, Vec<u64>)| (e.0@, e.1@)),
        ensures
            forall|b: int| 0 <= b < n ==> heads@[b] == (#[trigger] bv[b]).len(),
            merge_inv(bv, heads@, out@.map_values(f)),
        decreases remaining(bv, heads@, n as int),
    {
        let ghost ov = out@.map_values(f);
        let mut current: Vec<Option<Vec<u8>>> = Vec::new();
        let mut b: usize = 0;
        while b < n
            invariant
                n == batches@.len(),
                bv == batches_view(batches@),
                heads@.len() == n,
                b <= n,
                merge_inv(bv, heads@, ov),
                current@.len() == b,
                forall|c: int|
                    0 <= c < b ==> (#[trigger] current@[c] is Some) == (heads@[c] < bv[c].len()),
                forall|c: int|
                    0 <= c < b && current@[c] is Some ==> (#[trigger] current@[c])->0@ == bv[c][heads@[c] as int].0,
            decreases n - b,
        {
            if heads[b] < batches[b].len() {
                current.push(Some(copy_bytes(batches[b][heads[b]].0.as_slice())));
            } else {
                current.push(None);
            }
            b = b + 1;
        }
        let picked = smallest_heads(&current);
        if picked.len() == 0 {
            proof {
                assert forall|c: int| 0 <= c < n implies heads@[c] == (#[trigger] bv[c]).len() by {
                    assert(current@[c] is None);
                }
            }
            break;
        }
        let t = copy_bytes(current[picked[0]].as_ref().unwrap().as_slice());
        let ghost h0 = heads@;
        let ghost p0 = picked@[0] as int;
        proof {
            // the smallest head is above everything written so far
            assert(current@[p0] is Some);
            if ov.len() > 0 {
                assert(bytes_lt(ov.last().0, bv[p0][h0[p0] as int].0));
            }
            assert forall|c: int| 0 <= c < n && h0[c] < bv[c].len() implies bv[c][h0[c] as int].0
                == t@ || bytes_lt(t@, #[trigger] bv[c][h0[c] as int].0) by {
                assert(current@[c] is Some);
                assert(!bytes_lt(current@[c]->0@, t@));
                if bv[c][h0[c] as int].0 != t@ {
                    lemma_bytes_lt_total(bv[c][h0[c] as int].0, t@);
                }
            }
        }
        let mut acc: Vec<u64> = Vec::new();
        b = 0;
        while b < n
            invariant
                n == batches@.len(),
                bv == batches_view(batches@),
                forall|c: int| 0 <= c < n ==> batch_sorted(#[trigger] bv[c]),
                heads@.len() == n,
                b <= n,
                merge_inv(bv, h0, ov),
                ov.len() > 0 ==> bytes_lt(ov.last().0, t@),
                forall|c: int|
                    0 <= c < n && h0[c] < bv[c].len() ==> bv[c][h0[c] as int].0 == t@ || bytes_lt(
                        t@,
                        #[trigger] bv[c][h0[c] as int].0,
                    ),
                forall|c: int|
                    0 <= c < b ==> #[trigger] heads@[c] == if h0[c] < bv[c].len() && bv[c][h0[c] as int].0
                        == t@ {
                        h0[c] + 1
                    } else {
                        h0[c] as int
                    },
                forall|c: int| b <= c < n ==> #[trigger] heads@[c] == h0[c],
                acc@ == lists_of(bv, t@, b as int),
            decreases n - b,
        {
            proof {
                lemma_head_list(bv, h0, ov, b as int, t@);
            }
            let h = heads[b];
            if h < batches[b].len() && bytes_equal(batches[b][h].0.as_slice(), t.as_slice()) {
                acc.extend_from_slice(batches[b][h].1.as_slice());
                heads.set(b, h + 1);
                proof {
                    assert(acc@ =~= lists_of(bv, t@, b as int) + bv[b as int][h as int].1);
                }
            } else {
                proof {
                    assert(lists_of(bv, t@, b + 1) =~= lists_of(bv, t@, b as int));
                }
            }
            b = b + 1;
        }
        proof {
            lemma_merge_step(bv, h0, heads@, ov, t@, acc@, p0);
            lemma_remaining_less(bv, h0, heads@, n as int, p0);
        }
        let ghost before = out@;
        out.push((t, acc));
        proof {
            assert(out@.map_values(f) =~= ov.push((t@, acc@)));
        }
    }
    proof {
        let ov = out@.map_values(f);
        assert forall|o: int| 0 <= o < out@.len() implies (#[trigger] out@[o]).1@ == lists_of(
            bv,
            out@[o].0@,
            n as int,
        ) && in_batches(bv, out@[o].0@) by {
            assert(ov[o] == (out@[o].0@, out@[o].1@));
        }
        assert forall|i: int, j: int| 0 <= i < j < out@.len() implies bytes_lt(
            #[trigger] out@[i].0@,
            #[trigger] out@[j].0@,
        ) by {
            assert(ov[i].0 == out@[i].0@ && ov[j].0 == out@[j].0@);
        }
        assert forall|b: int, x: int| 0 <= b < n && 0 <= x < batches@[b]@.len() implies token_out(
            out@,
            (#[trigger] batches@[b]@[x]).0@,
        ) by {
            assert(bv[b][x].0 == batches@[b]@[x].0@);
            assert(heads@[b] == bv[b].len());
            assert(0 <= x < heads@[b]);
            assert(written(ov, bv[b][x].0));
            let o = choose|o: int| 0 <= o < ov.len() && ov[o].0 == bv[b][x].0;
            assert(ov[o].0 == out@[o].0@);
            assert(0 <= o < out@.len() && out@[o].0@ == batches@[b]@[x].0@);
        }
    }
    out
}

proof fn lemma_merge_step(
    bv: Seq<BatchView>,
    h0: Seq<usize>,
    h1: Seq<usize>,
    ov: Seq<(Seq<u8>, Seq<u64>)>,
    t: Seq<u8>,
    acc: Seq<u64>,
    p0: int,
)
    requires
        forall|c: int| 0 <= c < bv.len() ==> batch_sorted(#[trigger] bv[c]),
        merge_inv(bv, h0, ov),
        h1.len() == bv.len(),
        0 <= p0 < bv.len(),
        h0[p0] < bv[p0].len(),
        bv[p0][h0[p0] as int].0 == t,
        ov.len() > 0 ==> bytes_lt(ov.last().0, t),
        forall|c: int|
            0 <= c < bv.len() && h0[c] < bv[c].len() ==> bv[c][h0[c] as int].0 == t || bytes_lt(
                t,
                #[trigger] bv[c][h0[c] as int].0,
            ),
        forall|c: int|
            0 <= c < bv.len() ==> #[trigger] h1[c] == if h0[c] < bv[c].len() && bv[c][h0[c] as int].0 == t {
                h0[c] + 1
            } else {
                h0[c] as int
            },
        acc == lists_of(bv, t, bv.len() as int),
    ensures
        merge_inv(bv, h1, ov.push((t, acc))),
        forall|c: int| 0 <= c < bv.len() ==> h0[c] <= #[trigger] h1[c] <= bv[c].len(),
        h0[p0] < h1[p0],
{
    let o2 = ov.push((t, acc));
    assert(o2.last().0 == t);
    assert forall|i: int, j: int| 0 <= i < j < o2.len() implies bytes_lt(#[trigger] o2[i].0, #[trigger] o2[j].0) by {
        if j < ov.len() {
            assert(bytes_lt(ov[i].0, ov[j].0));
        } else if i < ov.len() - 1 {
            assert(bytes_lt(ov[i].0, ov[ov.len() - 1].0));
            lemma_bytes_lt_trans(ov[i].0, ov.last().0, t);
        }
    }
    assert forall|o: int| 0 <= o < o2.len() implies (#[trigger] o2[o]).1 == lists_of(bv, o2[o].0, bv.len() as int)
        && in_batches(bv, o2[o].0) by {
        if o < ov.len() {
            assert(o2[o] == ov[o]);
        } else {
            assert(bv[p0][h0[p0] as int].0 == t);
        }
    }
    assert forall|b: int, x: int| #![trigger bv[b][x]] 0 <= b < bv.len() && 0 <= x < h1[b] implies written(
        o2,
        bv[b][x].0,
    ) by {
        if x < h0[b] {
            assert(written(ov, bv[b][x].0));
            let o = choose|o: int| 0 <= o < ov.len() && ov[o].0 == bv[b][x].0;
            assert(o2[o] == ov[o]);
            if bv[b][x].0 != ov.last().0 {
                lemma_bytes_lt_trans(bv[b][x].0, ov.last().0, t);
            }
        } else {
            assert(o2[ov.len() as int].0 == t);
        }
    }
    assert forall|b: int, x: int| 0 <= b < bv.len() && h1[b] <= x < bv[b].len() && o2.len() > 0 implies bytes_lt(
        o2.last().0,
        #[trigger] bv[b][x].0,
    ) by {
        let h = h0[b] as int;
        if x > h {
            assert(bytes_lt(bv[b][h].0, bv[b][x].0));
            if bv[b][h].0 != t {
                lemma_bytes_lt_trans(t, bv[b][h].0, bv[b][x].0);
            }
        }
    }
}

} // verus!
