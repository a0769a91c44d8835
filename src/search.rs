//! The query executor: intersects the posting lists of the planned groups,
//! starting from the cheapest neighbouring pair and growing the phrase to the
//! left and to the right, and returns the matching document ids.
use crate::intersect::{
    bit_shift, carry_bits, group_shift, is_phrase_result, phrase_bits, shl_bits, Intersection,
};
use crate::packed::{bit_set, bm, wf_packed};
use crate::planner::{SearchError, MAX_QUERY_TOKENS};
use crate::roaringish::{doc_ids_of, Aligned, BorrowRoaringishPacked, RoaringishPacked};
use crate::tokens::RefTokens;
use vstd::prelude::*;

verus! {

/// Whether global position `x` (`key * 16 + bit`, the document id times
/// `2^20` plus the position in the document) is recorded in `s`.
pub open spec fn holds(s: Seq<u64>, x: int) -> bool {
    x >= 0 && bit_set(bm(s, x / 16), x % 16)
}

proof fn lemma_phrase_bit(r: u16, a: u16, c: u16, k: u16, b: u16)
    requires
        k < 16,
        b < 16,
    ensures
        ((r & ((a << k) | carry_bits(c, k))) >> b) & 1 == 1 <==> ((r >> b) & 1 == 1 && if b
            >= k {
            (a >> ((b - k) as u16)) & 1 == 1
        } else {
            (c >> ((b + 16 - k) as u16)) & 1 == 1
        }),
{
    assert(k < 16 && b < 16 ==> ((((r & ((a << k) | (if k == 0 {
        0u16
    } else {
        c >> ((16 - k) as u16)
    }))) >> b) & 1 == 1) <==> ((r >> b) & 1 == 1 && if b >= k {
        (a >> ((b - k) as u16)) & 1 == 1
    } else {
        (c >> ((b + 16 - k) as u16)) & 1 == 1
    }))) by (bit_vector);
}

/// A phrase result records exactly the positions `x` of the right list such
/// that `x - n` is a position of the left list.
pub proof fn lemma_phrase_positions(l: Seq<u64>, r: Seq<u64>, n: u32, out: Seq<u64>, x: int)
    requires
        is_phrase_result(l, r, n, out),
    ensures
        holds(out, x) <==> holds(r, x) && holds(l, x - n),
{
    if x >= 0 {
        let key = x / 16;
        let b = x % 16;
        let c = group_shift(n);
        let k = bit_shift(n);
        assert(bm(out, key) == phrase_bits(l, r, n, key));
        lemma_phrase_bit(
            bm(r, key),
            bm(l, key - c),
            bm(l, key - c - 1),
            k,
            b as u16,
        );
        let y = x - n;
        if b >= k {
            assert(y == (key - c) * 16 + (b - k));
            assert(y / 16 == key - c && y % 16 == b - k);
        } else {
            assert(y == (key - c - 1) * 16 + (b + 16 - k));
            assert(y / 16 == key - c - 1 && y % 16 == b + 16 - k);
        }
        if y < 0 {
            assert(key - c - 1 < 0);
            crate::packed::lemma_bm_absent(l, key - c - 1);
            if b >= k {
                assert(key - c < 0);
                crate::packed::lemma_bm_absent(l, key - c);
            }
            crate::packed::lemma_no_bit((b + 16 - k) as u16);
            crate::packed::lemma_no_bit((b - k) as u16);
        }
    }
}

/// Offset of group `j` within the query.
pub open spec fn offset(groups: Seq<RefTokens>, j: int) -> int {
    groups[j].start as int
}

/// `x` is a position of group `a` at which groups `l .. a` all occur in
/// query order, each at its offset before `x`.
pub open spec fn in_run(groups: Seq<RefTokens>, lists: Seq<Seq<u64>>, l: int, a: int, x: int) -> bool {
    holds(lists[a], x) && forall|j: int|
        l <= j < a ==> #[trigger] holds(lists[j], x - (offset(groups, a) - offset(groups, j)))
}

/// `x` is a position of the last group at which the whole phrase occurs.
pub open spec fn in_phrase(groups: Seq<RefTokens>, lists: Seq<Seq<u64>>, x: int) -> bool {
    in_run(groups, lists, 0, groups.len() - 1, x)
}

/// The groups cut the query into consecutive runs.
pub open spec fn groups_fit(groups: Seq<RefTokens>) -> bool {
    &&& forall|j: int| 0 <= j < groups.len() ==> #[trigger] groups[j].start < groups[j].end
    &&& forall|j: int| 0 <= j < groups.len() - 1 ==> #[trigger] groups[j].end == groups[j + 1].start
    &&& groups.len() > 0 ==> groups.last().end <= MAX_QUERY_TOKENS
}

proof fn lemma_offsets(groups: Seq<RefTokens>, i: int, j: int)
    requires
        groups_fit(groups),
        0 <= i <= j < groups.len(),
    ensures
        offset(groups, i) <= offset(groups, j),
        offset(groups, j) < groups[j].end <= MAX_QUERY_TOKENS,
    decreases groups.len() - i,
{
    if i < j {
        lemma_offsets(groups, i + 1, j);
        assert(groups[i].end == groups[i + 1].start);
    } else {
        if j < groups.len() - 1 {
            lemma_offsets(groups, j + 1, groups.len() - 1);
            assert(groups[j].end == groups[j + 1].start);
        }
    }
}

/// A non-empty well-formed list records some position.
proof fn lemma_nonempty_has(s: Seq<u64>)
    requires
        wf_packed(s),
        s.len() > 0,
    ensures
        exists|x: int| holds(s, x),
{
    let w = s[0];
    crate::packed::lemma_bm_at(s, 0);
    let v = crate::packed::bits_of(w);
    assert(v != 0);
    let b = lemma_some_bit(v);
    let x = crate::packed::key_of(w) * 16 + b;
    assert(x / 16 == crate::packed::key_of(w) && x % 16 == b);
    assert(holds(s, x));
}

proof fn lemma_some_bit(v: u16) -> (b: int)
    requires
        v != 0,
    ensures
        0 <= b < 16,
        bit_set(v, b),
{
    assert(v >> 0u16 == v) by (bit_vector);
    lemma_bit_from(v, 0)
}

proof fn lemma_bit_from(v: u16, b: u16) -> (c: int)
    requires
        b < 16,
        v >> b != 0,
    ensures
        b <= c < 16,
        bit_set(v, c),
    decreases 16 - b,
{
    if (v >> b) & 1 == 1 {
        b as int
    } else {
        assert(b < 16 && v >> b != 0 && (v >> b) & 1 != 1 ==> b < 15 && v >> ((b + 1) as u16) != 0)
            by (bit_vector);
        lemma_bit_from(v, (b + 1) as u16)
    }
}

/// When the run `l ..= a` occurs nowhere, neither does the whole phrase.
proof fn lemma_empty_run(groups: Seq<RefTokens>, lists: Seq<Seq<u64>>, l: int, a: int, result: Seq<u64>)
    requires
        groups_fit(groups),
        groups.len() == lists.len(),
        0 <= l <= a < groups.len(),
        forall|x: int| holds(result, x) <==> in_run(groups, lists, l, a, x),
        result.len() == 0,
    ensures
        !exists|x: int| in_phrase(groups, lists, x),
{
    let m = groups.len();
    assert forall|x: int| !in_phrase(groups, lists, x) by {
        if in_phrase(groups, lists, x) {
            let y = x - (offset(groups, m - 1) - offset(groups, a));
            assert forall|j: int| l <= j < a implies #[trigger] holds(
                lists[j],
                y - (offset(groups, a) - offset(groups, j)),
            ) by {
                assert(holds(lists[j], x - (offset(groups, m - 1) - offset(groups, j))));
                assert(y - (offset(groups, a) - offset(groups, j)) == x - (offset(groups, m - 1) - offset(groups, j)));
            }
            if a < m - 1 {
                assert(holds(lists[a], x - (offset(groups, m - 1) - offset(groups, a))));
            }
            assert(in_run(groups, lists, l, a, y));
            assert(holds(result, y));
            crate::packed::lemma_bm_absent(result, y / 16);
            crate::packed::lemma_no_bit((y % 16) as u16);
        }
    }
}

/// Adding the group before the run.
proof fn lemma_extend_left(groups: Seq<RefTokens>, lists: Seq<Seq<u64>>, l: int, a: int, result: Seq<u64>, next: Seq<u64>)
    requires
        0 < l <= a < groups.len(),
        forall|x: int| holds(result, x) <==> in_run(groups, lists, l, a, x),
        forall|x: int| holds(next, x) <==> holds(result, x) && holds(lists[l - 1], x - (offset(groups, a) - offset(groups, l - 1))),
    ensures
        forall|x: int| holds(next, x) <==> in_run(groups, lists, l - 1, a, x),
{
    assert forall|x: int| holds(next, x) <==> in_run(groups, lists, l - 1, a, x) by {
        if in_run(groups, lists, l - 1, a, x) {
            assert(holds(lists[l - 1], x - (offset(groups, a) - offset(groups, l - 1))));
        }
    }
}

/// Adding the group after the run, which becomes the new last group.
proof fn lemma_extend_right(groups: Seq<RefTokens>, lists: Seq<Seq<u64>>, l: int, a: int, result: Seq<u64>, next: Seq<u64>)
    requires
        0 <= l <= a,
        a + 1 < groups.len(),
        forall|x: int| holds(result, x) <==> in_run(groups, lists, l, a, x),
        forall|x: int| holds(next, x) <==> holds(lists[a + 1], x) && holds(result, x - (offset(groups, a + 1) - offset(groups, a))),
    ensures
        forall|x: int| holds(next, x) <==> in_run(groups, lists, l, a + 1, x),
{
    assert forall|x: int| holds(next, x) <==> in_run(groups, lists, l, a + 1, x) by {
        let d = offset(groups, a + 1) - offset(groups, a);
        if holds(lists[a + 1], x) && holds(result, x - d) {
            assert(in_run(groups, lists, l, a, x - d));
            assert forall|j: int| l <= j < a + 1 implies #[trigger] holds(
                lists[j],
                x - (offset(groups, a + 1) - offset(groups, j)),
            ) by {
                if j < a {
                    assert(holds(lists[j], (x - d) - (offset(groups, a) - offset(groups, j))));
                    assert((x - d) - (offset(groups, a) - offset(groups, j)) == x - (offset(groups, a + 1) - offset(groups, j)));
                }
            }
        }
        if in_run(groups, lists, l, a + 1, x) {
            assert(holds(lists[a], x - d));
            assert forall|j: int| l <= j < a implies #[trigger] holds(
                lists[j],
                (x - d) - (offset(groups, a) - offset(groups, j)),
            ) by {
                assert(holds(lists[j], x - (offset(groups, a + 1) - offset(groups, j))));
                assert((x - d) - (offset(groups, a) - offset(groups, j)) == x - (offset(groups, a + 1) - offset(groups, j)));
            }
            assert(in_run(groups, lists, l, a, x - d));
        }
    }
}

/// Intersects the posting lists of the planned groups of a query (`lists[j]`
/// is that of `groups[j]`) and returns the ids of the documents that hold the
/// whole phrase.
pub fn search_postings<'a, I: Intersection>(
    groups: &Vec<RefTokens>,
    lists: &Vec<BorrowRoaringishPacked<'a, Aligned>>,
) -> (r: Result<Vec<u32>, SearchError>)
    requires
        groups@.len() == lists@.len(),
        groups_fit(groups@),
        forall|j: int| 0 <= j < lists@.len() ==> wf_packed(#[trigger] lists@[j]@),
    ensures
        groups@.len() == 0 ==> r is Err && r->Err_0 is EmptyQuery,
        groups@.len() == 1 ==> r is Ok && r->Ok_0@ == doc_ids_of(lists@[0]@),
        groups@.len() >= 2 ==> {
            let views = lists@.map_values(|p: BorrowRoaringishPacked<'a, Aligned>| p@);
            &&& r is Ok || (r is Err && r->Err_0 is EmptyIntersection)
            &&& r is Err <==> !exists|x: int| in_phrase(groups@, views, x)
            &&& r is Ok ==> exists|out: Seq<u64>|
                wf_packed(out) && (forall|x: int| holds(out, x) <==> in_phrase(groups@, views, x))
                    && r->Ok_0@ == doc_ids_of(out)
        },
{
    let m = groups.len();
    if m == 0 {
        return Err(SearchError::EmptyQuery);
    }
    if m == 1 {
        return Ok(lists[0].get_doc_ids());
    }
    let ghost views = lists@.map_values(|p: BorrowRoaringishPacked<'a, Aligned>| p@);
    let ghost g = groups@;
    // the neighbouring pair with the shortest lists, the later one on ties
    let mut min: u128 = u128::MAX;
    let mut i: usize = 0;
    let mut j: usize = 0;
    while j + 1 < m
        invariant
            m == groups@.len(),
            m == lists@.len(),
            m >= 2,
            j + 1 <= m,
            i + 1 < m,
        decreases m - j,
    {
        let l = lists[j].len() as u128 + lists[j + 1].len() as u128;
        if l <= min {
            i = j;
            min = l;
        }
        j = j + 1;
    }
    proof {
        lemma_offsets(g, i as int, i + 1);
        lemma_offsets(g, 0, m - 1);
        assert(views[i as int] == lists@[i as int]@);
        assert(views[i + 1] == lists@[i + 1]@);
    }
    let mut lhs_len: u32 = (groups[i].end - groups[i].start) as u32;
    let mut rhs_len: u32 = (groups[i + 1].end - groups[i + 1].start) as u32;
    let mut result: RoaringishPacked = lists[i].intersect::<I>(lists[i + 1], lhs_len);
    proof {
        assert(groups[i as int].end == groups[i + 1].start);
        assert forall|x: int| holds(result@, x) <==> in_run(g, views, i as int, i + 1, x) by {
            lemma_phrase_positions(views[i as int], views[i + 1], lhs_len, result@, x);
            if in_run(g, views, i as int, i + 1, x) {
                assert(holds(views[i as int], x - (offset(g, i + 1) - offset(g, i as int))));
            }
        }
        if result@.len() == 0 {
            lemma_empty_run(g, views, i as int, i + 1, result@);
        }
    }
    let mut left: usize = i;
    let mut right: usize = i + 2;
    loop
        invariant
            m == groups@.len(),
            m == lists@.len(),
            m >= 2,
            g == groups@,
            views == lists@.map_values(|p: BorrowRoaringishPacked<'a, Aligned>| p@),
            groups_fit(g),
            forall|j: int| 0 <= j < lists@.len() ==> wf_packed(#[trigger] lists@[j]@),
            left < right - 1,
            right <= m,
            wf_packed(result@),
            lhs_len == offset(g, right - 1) - offset(g, left as int),
            rhs_len == g[right - 1].end - g[right - 1].start,
            forall|x: int| holds(result@, x) <==> in_run(g, views, left as int, right - 1, x),
            result@.len() == 0 ==> !exists|x: int| in_phrase(g, views, x),
        ensures
            left == 0,
            right == m,
            result@.len() > 0,
        decreases left + m - right,
    {
        if result.is_empty() {
            return Err(SearchError::EmptyIntersection);
        }
        if left == 0 && right >= m {
            break;
        }
        let go_left = if left > 0 && right < m {
            lists[left - 1].len() <= lists[right].len()
        } else {
            left > 0
        };
        if go_left {
            proof {
                lemma_offsets(g, left - 1, right - 1);
                assert(g[left - 1].end == g[left as int].start);
                assert(views[left - 1] == lists@[left - 1]@);
            }
            lhs_len = lhs_len + (groups[left - 1].end - groups[left - 1].start) as u32;
            let next = lists[left - 1].intersect::<I>(BorrowRoaringishPacked::new(&result), lhs_len);
            proof {
                assert forall|x: int| holds(next@, x) <==> holds(result@, x) && holds(
                    views[left - 1],
                    x - (offset(g, right - 1) - offset(g, left - 1)),
                ) by {
                    lemma_phrase_positions(views[left - 1], result@, lhs_len, next@, x);
                }
                lemma_extend_left(g, views, left as int, right - 1, result@, next@);
            }
            result = next;
            left = left - 1;
        } else {
            proof {
                lemma_offsets(g, left as int, right as int);
                assert(g[right - 1].end == g[right as int].start);
                assert(views[right as int] == lists@[right as int]@);
            }
            let next = BorrowRoaringishPacked::new(&result).intersect::<I>(lists[right], rhs_len);
            proof {
                assert forall|x: int| holds(next@, x) <==> holds(views[right as int], x) && holds(
                    result@,
                    x - (offset(g, right as int) - offset(g, right - 1)),
                ) by {
                    lemma_phrase_positions(result@, views[right as int], rhs_len, next@, x);
                }
                lemma_extend_right(g, views, left as int, right - 1, result@, next@);
            }
            result = next;
            lhs_len = lhs_len + rhs_len;
            rhs_len = (groups[right].end - groups[right].start) as u32;
            right = right + 1;
        }
        proof {
            if result@.len() == 0 {
                lemma_empty_run(g, views, left as int, right - 1, result@);
            }
        }
    }
    proof {
        lemma_nonempty_has(result@);
        let x = choose|x: int| holds(result@, x);
        assert(in_phrase(g, views, x));
    }
    Ok(BorrowRoaringishPacked::new(&result).get_doc_ids())
}

/// A document in which the phrase occurs is among the documents returned: a
/// list that records a phrase position `x` yields the id of the document
/// `x` lies in.
pub proof fn lemma_phrase_document_found(
    groups: Seq<RefTokens>,
    lists: Seq<Seq<u64>>,
    out: Seq<u64>,
    x: int,
)
    requires
        wf_packed(out),
        forall|y: int| holds(out, y) <==> in_phrase(groups, lists, y),
        in_phrase(groups, lists, x),
    ensures
        doc_ids_of(out).contains((x / 0x10_0000) as u32),
{
    assert(holds(out, x));
    if bm(out, x / 16) == 0 {
        crate::packed::lemma_no_bit((x % 16) as u16);
    }
    crate::packed::lemma_bm_present(out, x / 16);
    let i = choose|i: int| 0 <= i < out.len() && crate::packed::key_of(#[trigger] out[i]) == x / 16;
    assert(crate::packed::doc_of(out[i]) == x / 0x10_0000);
    crate::roaringish::lemma_doc_ids_sorted(out);
}

} // verus!
