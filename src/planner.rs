//! The token-merge planner: chooses how to cut a query into groups of one to
//! three tokens so that the posting lists to intersect are as short as
//! possible.
//!
//! Groups wider than one token are only considered around common tokens. The
//! cost of a group is the length of its posting list; the planner minimizes
//! the sum over all groups, preferring wider groups on ties.
use crate::tokens::{joined, RefTokens, Tokens, MAX_WINDOW_LEN};
use crate::intersect::min_int;
use vstd::prelude::*;

verus! {

/// Why a query could not be answered.
#[derive(Debug)]
pub enum SearchError {
    /// The query holds no token.
    EmptyQuery,
    /// Some group of the chosen cut has an empty posting list.
    MergeAndMinimizeNotPossible,
    /// No posting list is stored for this group text.
    TokenNotFound(String),
    /// The phrase does not occur.
    EmptyIntersection,
    /// A stored posting list is malformed.
    InternalError,
}

/// Above the length of any posting list: scores are sums of list lengths,
/// added up in 128 bits.
pub open spec fn cost_bound() -> int {
    0x1_0000_0000_0000_0000
}

/// Largest number of query tokens the planner accepts. A phrase that matches
/// spans at most `MAX_VALUE + 1` positions of one document, about a million,
/// so a longer query cannot match; the bound keeps scores within 128 bits and
/// token offsets within 32 bits, the width of a phrase distance.
pub const MAX_QUERY_TOKENS: usize = 0xFF_FFFF;

/// One past the widest group that may start at token `i`: two, plus the run
/// of common tokens right after `i` (at most two), plus one when token `i` is
/// common itself; at most four and at most one past the tokens left.
pub open spec fn window_end(common: Seq<bool>, i: int) -> int {
    let n = common.len();
    let run: int = if i + 1 < n && common[i + 1] {
        if i + 2 < n && common[i + 2] {
            2
        } else {
            1
        }
    } else {
        0
    };
    let e = 2 + run + if common[i] {
        1int
    } else {
        0
    };
    min_int(min_int(e, 4), n - i + 1)
}

/// Slot of the group of `w` tokens starting at token `i` in the cost table.
pub open spec fn slot(i: int, w: int) -> int {
    3 * i + w - 1
}

/// Cost of the group of `w` tokens starting at token `i`.
pub open spec fn cost(costs: Seq<Option<usize>>, i: int, w: int) -> int {
    match costs[slot(i, w)] {
        Some(c) => c as int,
        None => 0,
    }
}

/// Best score of the tokens from `i` on, and the width of the first group of a
/// cut that reaches it (the widest on ties).
pub open spec fn plan(common: Seq<bool>, costs: Seq<Option<usize>>, i: int) -> (int, int)
    decreases common.len() - i,
{
    if i < 0 || i >= common.len() {
        (0, 0)
    } else {
        let e = window_end(common, i);
        let s1 = cost(costs, i, 1) + plan(common, costs, i + 1).0;
        let s2 = if e > 2 {
            cost(costs, i, 2) + plan(common, costs, i + 2).0
        } else {
            0
        };
        let s3 = if e > 3 {
            cost(costs, i, 3) + plan(common, costs, i + 3).0
        } else {
            0
        };
        let top = if e > 3 {
            (s3, 3int)
        } else if e > 2 {
            (s2, 2int)
        } else {
            (s1, 1int)
        };
        let mid = if e > 3 && s2 < top.0 {
            (s2, 2int)
        } else {
            top
        };
        if e > 2 && s1 < mid.0 {
            (s1, 1int)
        } else {
            mid
        }
    }
}

/// Widths of the groups the planner picks from token `i` on.
pub open spec fn chosen(common: Seq<bool>, costs: Seq<Option<usize>>, i: int) -> Seq<int>
    decreases common.len() - i,
{
    if i < 0 || i >= common.len() || plan(common, costs, i).1 < 1 {
        Seq::empty()
    } else {
        seq![plan(common, costs, i).1] + chosen(common, costs, i + plan(common, costs, i).1)
    }
}

/// `ws` cuts the tokens from `i` on into groups the planner may consider.
pub open spec fn is_cut(common: Seq<bool>, i: int, ws: Seq<int>) -> bool
    decreases ws.len(),
{
    if ws.len() == 0 {
        i == common.len()
    } else {
        0 <= i < common.len() && 1 <= ws[0] < window_end(common, i) && is_cut(
            common,
            i + ws[0],
            ws.drop_first(),
        )
    }
}

/// Sum of the costs of the groups of a cut.
pub open spec fn cut_cost(costs: Seq<Option<usize>>, i: int, ws: Seq<int>) -> int
    decreases ws.len(),
{
    if ws.len() == 0 {
        0
    } else {
        cost(costs, i, ws[0]) + cut_cost(costs, i + ws[0], ws.drop_first())
    }
}

/// The cost table fits the query and its entries are in range.
pub open spec fn costs_fit(common: Seq<bool>, costs: Seq<Option<usize>>) -> bool {
    &&& costs.len() == 3 * common.len()
    &&& common.len() <= MAX_QUERY_TOKENS
}

/// The runs of the groups of a cut from token `i` on.
pub open spec fn runs_of(i: int, ws: Seq<int>) -> Seq<RefTokens>
    decreases ws.len(),
{
    if ws.len() == 0 {
        Seq::empty()
    } else {
        seq![RefTokens { start: i as usize, end: (i + ws[0]) as usize }] + runs_of(
            i + ws[0],
            ws.drop_first(),
        )
    }
}

proof fn lemma_plan_facts(common: Seq<bool>, costs: Seq<Option<usize>>, i: int)
    requires
        0 <= i <= common.len(),
        costs_fit(common, costs),
    ensures
        0 <= plan(common, costs, i).0 <= (common.len() - i) * cost_bound(),
        i < common.len() ==> 1 <= plan(common, costs, i).1 < window_end(common, i),
        is_cut(common, i, chosen(common, costs, i)),
        cut_cost(costs, i, chosen(common, costs, i)) == plan(common, costs, i).0,
    decreases common.len() - i,
{
    if i < common.len() {
        let e = window_end(common, i);
        lemma_plan_facts(common, costs, i + 1);
        if e > 2 {
            lemma_plan_facts(common, costs, i + 2);
        }
        if e > 3 {
            lemma_plan_facts(common, costs, i + 3);
        }
        assert forall|w: int| 1 <= w <= 3 && w < e implies 0 <= #[trigger] cost(costs, i, w) < cost_bound() by {
            if costs[slot(i, w)] is Some {
                assert(costs[slot(i, w)]->0 <= usize::MAX);
            }
        }
        let w = plan(common, costs, i).1;
        lemma_plan_facts(common, costs, i + w);
        let ws = chosen(common, costs, i);
        assert(ws.drop_first() =~= chosen(common, costs, i + w));
        assert((common.len() - i) * cost_bound() == (common.len() - i - 1) * cost_bound()
            + cost_bound()) by (nonlinear_arith);
        assert((common.len() - i - 1) * cost_bound() >= (common.len() - i - 2) * cost_bound()) by (nonlinear_arith);
        assert((common.len() - i - 2) * cost_bound() >= (common.len() - i - 3) * cost_bound()) by (nonlinear_arith);
    } else {
        assert(chosen(common, costs, i) =~= Seq::<int>::empty());
    }
}

/// The planner's score is the least total cost of all cuts it may consider,
/// and the cut it picks has that total.
pub proof fn lemma_plan_optimal(common: Seq<bool>, costs: Seq<Option<usize>>, i: int, ws: Seq<int>)
    requires
        costs_fit(common, costs),
        0 <= i <= common.len(),
        is_cut(common, i, ws),
    ensures
        plan(common, costs, i).0 <= cut_cost(costs, i, ws),
        is_cut(common, i, chosen(common, costs, i)),
        cut_cost(costs, i, chosen(common, costs, i)) == plan(common, costs, i).0,
    decreases ws.len(),
{
    lemma_plan_facts(common, costs, i);
    if ws.len() > 0 {
        lemma_plan_optimal(common, costs, i + ws[0], ws.drop_first());
    }
}

/// One past the widest group that may start at token `a`.
pub open spec fn widths_end(common: Seq<bool>, common_is_empty: bool, a: int) -> int {
    if common_is_empty {
        2
    } else {
        window_end(common, a)
    }
}

/// The groups starting at token `a`, widest first.
pub open spec fn windows_at(common: Seq<bool>, common_is_empty: bool, a: int) -> Seq<
    (usize, usize),
> {
    let e = widths_end(common, common_is_empty, a);
    Seq::new((e - 1) as nat, |t: int| (a as usize, (e - 1 - t) as usize))
}

/// The groups starting before token `i`, in lookup order.
pub open spec fn candidates(common: Seq<bool>, common_is_empty: bool, i: int) -> Seq<
    (usize, usize),
>
    decreases i,
{
    if i <= 0 {
        Seq::empty()
    } else {
        candidates(common, common_is_empty, i - 1) + windows_at(common, common_is_empty, i - 1)
    }
}

/// The groups to look up before planning, as `(start, width)`, in lookup
/// order: by start token, widest first. With no common token at all, only the
/// single tokens.
pub fn candidate_windows(common: &[bool], common_is_empty: bool) -> (r: Vec<(usize, usize)>)
    requires
        common@.len() <= MAX_QUERY_TOKENS,
    ensures
        r@ == candidates(common@, common_is_empty, common@.len() as int),
{
    let n = common.len();
    let mut out: Vec<(usize, usize)> = Vec::new();
    let mut i: usize = 0;
    while i < n
        invariant
            n == common@.len(),
            n <= MAX_QUERY_TOKENS,
            i <= n,
            out@ == candidates(common@, common_is_empty, i as int),
        decreases n - i,
    {
        let e = if common_is_empty {
            2
        } else {
            window_end_at(common, i)
        };
        let mut w: usize = e - 1;
        let ghost before = out@;
        while w >= 1
            invariant
                n == common@.len(),
                n <= MAX_QUERY_TOKENS,
                i < n,
                w < e,
                2 <= e <= 4,
                e == widths_end(common@, common_is_empty, i as int),
                before == candidates(common@, common_is_empty, i as int),
                out@ == before + windows_at(common@, common_is_empty, i as int).take(e - 1 - w),
            decreases w,
        {
            out.push((i, w));
            proof {
                assert(windows_at(common@, common_is_empty, i as int).take(e - 1 - (w - 1))
                    =~= windows_at(common@, common_is_empty, i as int).take(e - 1 - w).push((i, w)));
            }
            w = w - 1;
        }
        proof {
            assert(windows_at(common@, common_is_empty, i as int).take(e - 1) =~= windows_at(
                common@,
                common_is_empty,
                i as int,
            ));
        }
        i = i + 1;
    }
    out
}

/// `window_end` computed.
pub fn window_end_at(common: &[bool], i: usize) -> (r: usize)
    requires
        i < common@.len(),
        common@.len() <= MAX_QUERY_TOKENS,
    ensures
        r == window_end(common@, i as int),
        2 <= r <= 4,
{
    let n = common.len();
    let mut end: usize = 2;
    if i + 1 < n && common[i + 1] {
        end = end + 1;
        if i + 2 < n && common[i + 2] {
            end = end + 1;
        }
    }
    if common[i] {
        end = end + 1;
    }
    if end > MAX_WINDOW_LEN + 1 {
        end = MAX_WINDOW_LEN + 1;
    }
    if end > n - i + 1 {
        end = n - i + 1;
    }
    end
}

/// Score and width after trying the widths from the widest down to `w` at
/// token `i`, keeping the first of equal scores.
pub open spec fn scan(common: Seq<bool>, costs: Seq<Option<usize>>, i: int, w: int) -> (int, int)
    decreases window_end(common, i) - w,
{
    let e = window_end(common, i);
    let s = cost(costs, i, w) + plan(common, costs, i + w).0;
    if w >= e - 1 || w < 1 {
        (s, w)
    } else {
        let prev = scan(common, costs, i, w + 1);
        if s < prev.0 {
            (s, w)
        } else {
            prev
        }
    }
}

proof fn lemma_plan_scan(common: Seq<bool>, costs: Seq<Option<usize>>, i: int)
    requires
        0 <= i < common.len(),
    ensures
        plan(common, costs, i) == scan(common, costs, i, 1),
{
    let e = window_end(common, i);
    if e > 2 {
        assert(scan(common, costs, i, 2) == if e > 3 {
            let prev = scan(common, costs, i, 3);
            let s2 = cost(costs, i, 2) + plan(common, costs, i + 2).0;
            if s2 < prev.0 {
                (s2, 2int)
            } else {
                prev
            }
        } else {
            (cost(costs, i, 2) + plan(common, costs, i + 2).0, 2int)
        });
    }
}

proof fn lemma_candidate_in_range(common: Seq<bool>, common_is_empty: bool, n: int, x: int)
    requires
        0 <= n <= common.len(),
        common.len() <= MAX_QUERY_TOKENS,
        0 <= x < candidates(common, common_is_empty, n).len(),
    ensures
        ({
            let (i, w) = candidates(common, common_is_empty, n)[x];
            &&& (i as int) < n
            &&& 1 <= w
            &&& (w as int) < widths_end(common, common_is_empty, i as int)
            &&& i + w <= common.len()
            &&& w <= 3
        }),
    decreases n,
{
    let before = candidates(common, common_is_empty, n - 1);
    if x < before.len() {
        lemma_candidate_in_range(common, common_is_empty, n - 1, x);
    } else {
        let a = n - 1;
        let t = x - before.len();
        let e = widths_end(common, common_is_empty, a);
        assert(2 <= e <= 4);
        assert(e <= common.len() - a + 1);
        assert(0 <= t < e - 1);
        assert(candidates(common, common_is_empty, n)[x] == windows_at(common, common_is_empty, a)[t]);
        assert(windows_at(common, common_is_empty, a)[t] == (a as usize, (e - 1 - t) as usize));
    }
}

/// The group `(i, w)` of the lookup list has no posting list.
pub open spec fn missing(costs: Seq<Option<usize>>, g: (usize, usize)) -> bool {
    costs[slot(g.0 as int, g.1 as int)] is None
}

/// The one-token runs of `n` tokens.
pub open spec fn single_runs(n: int) -> Seq<RefTokens> {
    Seq::new(n as nat, |x: int| RefTokens { start: x as usize, end: (x + 1) as usize })
}

/// Some group of the cut `ws` from token `i` has an empty posting list.
pub open spec fn cut_has_empty(costs: Seq<Option<usize>>, i: int, ws: Seq<int>) -> bool
    decreases ws.len(),
{
    ws.len() > 0 && (cost(costs, i, ws[0]) == 0 || cut_has_empty(costs, i + ws[0], ws.drop_first()))
}

/// What the planner answers for a query of `tokens` whose tokens are common as
/// `common` says, given the posting list lengths in `costs`.
pub open spec fn plan_outcome(
    tokens: Seq<Seq<char>>,
    common: Seq<bool>,
    common_is_empty: bool,
    costs: Seq<Option<usize>>,
    r: Result<Vec<RefTokens>, SearchError>,
) -> bool {
    let n = tokens.len() as int;
    let cs = candidates(common, common_is_empty, n);
    if n == 0 {
        r is Err && r->Err_0 is EmptyQuery
    } else if exists|x: int| 0 <= x < cs.len() && missing(costs, #[trigger] cs[x]) {
        exists|x: int|
            0 <= x < cs.len() && missing(costs, #[trigger] cs[x]) && (forall|y: int|
                0 <= y < x ==> !missing(costs, cs[y])) && r is Err && r->Err_0 is TokenNotFound
                && r->Err_0->TokenNotFound_0@ == joined(
                tokens.subrange(cs[x].0 as int, cs[x].0 + cs[x].1),
            )
    } else if common_is_empty {
        r is Ok && r->Ok_0@ == single_runs(n)
    } else if cut_has_empty(costs, 0, chosen(common, costs, 0)) {
        r is Err && r->Err_0 is MergeAndMinimizeNotPossible
    } else {
        r is Ok && r->Ok_0@ == runs_of(0, chosen(common, costs, 0))
    }
}

proof fn lemma_candidates_cover(common: Seq<bool>, i: int, w: int)
    requires
        0 <= i < common.len(),
        1 <= w < window_end(common, i),
    ensures
        candidates(common, false, common.len() as int).contains((i as usize, w as usize)),
{
    lemma_candidates_prefix(common, i + 1, common.len() as int);
    let before = candidates(common, false, i);
    let x = before.len() + window_end(common, i) - 1 - w;
    assert(candidates(common, false, i + 1)[x] == (i as usize, w as usize));
    assert(candidates(common, false, common.len() as int)[x] == (i as usize, w as usize));
}

proof fn lemma_candidates_prefix(common: Seq<bool>, i: int, j: int)
    requires
        0 <= i <= j,
    ensures
        candidates(common, false, i).len() <= candidates(common, false, j).len(),
        forall|x: int|
            0 <= x < candidates(common, false, i).len() ==> candidates(common, false, j)[x]
                == #[trigger] candidates(common, false, i)[x],
    decreases j - i,
{
    if i < j {
        lemma_candidates_prefix(common, i, j - 1);
    }
}

/// Cuts the query into groups: wider groups are only tried around common
/// tokens, and the cut whose posting lists add up to the least is chosen
/// (the widest group on ties). `costs[3 * i + w - 1]` is the length of the
/// posting list of the `w` tokens from token `i`, or `None` when none is
/// stored; the groups of `candidate_windows` are the ones looked at.
pub fn merge_and_minimize_tokens(
    tokens: &Tokens,
    common: &[bool],
    common_is_empty: bool,
    costs: &[Option<usize>],
) -> (r: Result<Vec<RefTokens>, SearchError>)
    requires
        common@.len() == tokens@.len(),
        costs_fit(common@, costs@),
    ensures
        plan_outcome(tokens@, common@, common_is_empty, costs@, r),
{
    let n = tokens.len();
    if n == 0 {
        return Err(SearchError::EmptyQuery);
    }
    let cands = candidate_windows(common, common_is_empty);
    let ghost cs = cands@;
    let mut x: usize = 0;
    while x < cands.len()
        invariant
            cs == cands@,
            cs == candidates(common@, common_is_empty, n as int),
            n == tokens@.len(),
            n == common@.len(),
            costs_fit(common@, costs@),
            x <= cs.len(),
            forall|y: int| 0 <= y < x ==> !missing(costs@, #[trigger] cs[y]),
        decreases cs.len() - x,
    {
        let (i, w) = cands[x];
        proof {
            lemma_candidate_in_range(common@, common_is_empty, n as int, x as int);
        }
        if costs[3 * i + w - 1].is_none() {
            let text = tokens.text(RefTokens { start: i, end: i + w });
            return Err(SearchError::TokenNotFound(text));
        }
        x = x + 1;
    }
    if common_is_empty {
        let all = tokens.as_ref();
        let singles = all.ref_token_iter();
        proof {
            assert(singles@ =~= single_runs(n as int));
        }
        return Ok(singles);
    }
    proof {
        assert forall|i: int, w: int|
            0 <= i < common@.len() && 1 <= w < window_end(common@, i) implies #[trigger] costs@[slot(
            i,
            w,
        )] is Some by {
            lemma_candidates_cover(common@, i, w);
            let y = choose|y: int| 0 <= y < cs.len() && cs[y] == (i as usize, w as usize);
            assert(!missing(costs@, cs[y]));
        }
    }
    let mut scores: Vec<u128> = vec![0u128; n + 1];
    let mut choices: Vec<usize> = vec![0usize; n + 1];
    let mut i: usize = n;
    while i > 0
        invariant
            n == common@.len(),
            n >= 1,
            costs_fit(common@, costs@),
            i <= n,
            scores@.len() == n + 1,
            choices@.len() == n + 1,
            forall|j: int| i <= j <= n ==> #[trigger] scores@[j] == plan(common@, costs@, j).0,
            forall|j: int| i <= j <= n ==> #[trigger] choices@[j] == plan(common@, costs@, j).1,
            forall|j: int|
                i <= j <= n ==> 0 <= #[trigger] plan(common@, costs@, j).0 <= (n - j) * cost_bound(),
        decreases i,
    {
        i = i - 1;
        let e = window_end_at(common, i);
        proof {
            lemma_plan_facts(common@, costs@, i + 1);
            if e > 2 {
                lemma_plan_facts(common@, costs@, i + 2);
            }
            if e > 3 {
                lemma_plan_facts(common@, costs@, i + 3);
            }
            assert((n - i) * cost_bound() <= 0x100_0000 * 0x1_0000_0000_0000_0000) by (nonlinear_arith)
                requires
                    n - i <= 0x100_0000,
            ;
        }
        let mut final_score: u128 = u128::MAX;
        let mut best: usize = 0;
        let mut w: usize = e - 1;
        while w >= 1
            invariant
                n == common@.len(),
                costs_fit(common@, costs@),
                i < n,
                2 <= e <= 4,
                e == window_end(common@, i as int),
                w < e,
                scores@.len() == n + 1,
                forall|j: int|
                    i < j <= n ==> #[trigger] scores@[j] == plan(common@, costs@, j).0,
                forall|j: int|
                    i < j <= n ==> 0 <= #[trigger] plan(common@, costs@, j).0 <= (n - j) * cost_bound(),
                w == e - 1 ==> final_score == u128::MAX && best == 0,
                w < e - 1 ==> (final_score as int, best as int) == scan(
                    common@,
                    costs@,
                    i as int,
                    w as int + 1,
                ),
                w < e - 1 ==> final_score <= (n - i - 1) * cost_bound() + cost_bound(),
            decreases w,
        {
            let c = match costs[3 * i + w - 1] {
                Some(c) => c,
                None => 0,
            };
            proof {
                assert(costs@[slot(i as int, w as int)] is Some ==> costs@[slot(i as int, w as int)]->0 <= usize::MAX);
                assert((n - i - w) * cost_bound() + cost_bound() <= 0x100_0000 * 0x1_0000_0000_0000_0000 + 0x1_0000_0000_0000_0000) by (nonlinear_arith)
                    requires
                        n - i - w < 0x100_0000,
                        w >= 1,
                ;
            }
            let calc_score = c as u128 + scores[i + w];
            if calc_score < final_score {
                final_score = calc_score;
                best = w;
            }
            w = w - 1;
        }
        proof {
            lemma_plan_scan(common@, costs@, i as int);
            lemma_plan_facts(common@, costs@, i as int);
        }
        scores.set(i, final_score);
        choices.set(i, best);
    }
    let mut out: Vec<RefTokens> = Vec::new();
    let mut at: usize = 0;
    while at < n
        invariant
            n == common@.len(),
            at <= n,
            costs_fit(common@, costs@),
            choices@.len() == n + 1,
            forall|k: int| 0 <= k <= n ==> #[trigger] choices@[k] == plan(common@, costs@, k).1,
            out@ + runs_of(at as int, chosen(common@, costs@, at as int)) == runs_of(
                0,
                chosen(common@, costs@, 0),
            ),
            cut_has_empty(costs@, 0, chosen(common@, costs@, 0)) == cut_has_empty(
                costs@,
                at as int,
                chosen(common@, costs@, at as int),
            ),
            costs@.len() == 3 * n,
            forall|y: int| 0 <= y < cs.len() ==> !missing(costs@, #[trigger] cs[y]),
            cs == candidates(common@, common_is_empty, n as int),
            !common_is_empty,
            n == tokens@.len(),
            n >= 1,
        decreases n - at,
    {
        let w = choices[at];
        let c = match costs[3 * at + w - 1] {
            Some(c) => c,
            None => 0,
        };
        proof {
            lemma_plan_facts(common@, costs@, at as int);
            let ws = chosen(common@, costs@, at as int);
            assert(ws[0] == w);
            assert(ws.drop_first() =~= chosen(common@, costs@, at + w));
            assert(c == cost(costs@, at as int, w as int));
        }
        if c == 0 {
            proof {
                let ws = chosen(common@, costs@, at as int);
                assert(ws.len() > 0);
                assert(cut_has_empty(costs@, at as int, ws));
            }
            return Err(SearchError::MergeAndMinimizeNotPossible);
        }
        proof {
            lemma_plan_facts(common@, costs@, at as int);
            let ws = chosen(common@, costs@, at as int);
            assert(ws[0] == w);
            assert(ws.drop_first() =~= chosen(common@, costs@, at + w));
            assert(runs_of(at as int, ws) =~= seq![RefTokens { start: at, end: (at + w) as usize }]
                + runs_of(at + w, chosen(common@, costs@, at + w)));
        }
        out.push(RefTokens { start: at, end: at + w });
        proof {
            let ws = chosen(common@, costs@, at as int);
            assert(cut_has_empty(costs@, at as int, ws) == cut_has_empty(
                costs@,
                at + w,
                chosen(common@, costs@, at + w),
            ));
            assert(out@ + runs_of(at + w, chosen(common@, costs@, at + w)) =~= runs_of(
                0,
                chosen(common@, costs@, 0),
            ));
        }
        at = at + w;
    }
    proof {
        assert(chosen(common@, costs@, n as int) =~= Seq::<int>::empty());
        assert(!cut_has_empty(costs@, n as int, chosen(common@, costs@, n as int)));
        assert(out@ =~= runs_of(0, chosen(common@, costs@, 0)));
    }
    Ok(out)
}

} // verus!
