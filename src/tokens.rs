//! Query normalization and tokenization, and runs of query tokens.
use unicode_segmentation::UnicodeSegmentation;
use vstd::prelude::*;

verus! {

broadcast use vstd::string::axiom_spec_iter, vstd::string::next_postcondition;

/// What `str::to_lowercase` makes of a string.
pub uninterp spec fn lower_of(s: Seq<char>) -> Seq<char>;

/// The pieces that `split_word_bounds` cuts a string into.
pub uninterp spec fn word_bounds_of(s: Seq<char>) -> Seq<Seq<char>>;

/// Whether a character has the Unicode `White_Space` property.
pub open spec fn white_space(c: char) -> bool {
    let u = c as u32;
    (0x09 <= u <= 0x0D) || u == 0x20 || u == 0x85 || u == 0xA0 || u == 0x1680 || (0x2000 <= u
        <= 0x200A) || u == 0x2028 || u == 0x2029 || u == 0x202F || u == 0x205F || u == 0x3000
}

/// All the pieces, one after the other.
pub open spec fn concat_all(ws: Seq<Seq<char>>) -> Seq<char>
    decreases ws.len(),
{
    if ws.len() == 0 {
        Seq::empty()
    } else {
        concat_all(ws.drop_last()) + ws.last()
    }
}

/// `s[i..j]` is `s` without its leading and trailing white space.
pub open spec fn trim_bounds(s: Seq<char>, i: int, j: int) -> bool {
    &&& 0 <= i <= j <= s.len()
    &&& forall|x: int| 0 <= x < i ==> white_space(#[trigger] s[x])
    &&& forall|x: int| j <= x < s.len() ==> white_space(#[trigger] s[x])
    &&& i < j ==> !white_space(s[i]) && !white_space(s[j - 1])
}

/// `t` is `s` without its leading and trailing white space.
pub open spec fn is_trim_of(s: Seq<char>, t: Seq<char>) -> bool {
    exists|i: int, j: int| trim_bounds(s, i, j) && t == s.subrange(i, j)
}

/// `s` without its leading and trailing white space.
pub open spec fn trimmed(s: Seq<char>) -> Seq<char> {
    choose|t: Seq<char>| is_trim_of(s, t)
}

proof fn lemma_trim_unique(s: Seq<char>, t1: Seq<char>, t2: Seq<char>)
    requires
        is_trim_of(s, t1),
        is_trim_of(s, t2),
    ensures
        t1 == t2,
{
    let (i1, j1) = choose|i: int, j: int| trim_bounds(s, i, j) && t1 == s.subrange(i, j);
    let (i2, j2) = choose|i: int, j: int| trim_bounds(s, i, j) && t2 == s.subrange(i, j);
    if i1 < j1 && i2 < j2 {
        if i1 < i2 {
            assert(white_space(s[i1]));
        }
        if i2 < i1 {
            assert(white_space(s[i2]));
        }
        if j1 < j2 {
            assert(white_space(s[j2 - 1]));
        }
        if j2 < j1 {
            assert(white_space(s[j1 - 1]));
        }
    } else if i1 < j1 {
        if i1 < i2 {
            assert(white_space(s[i1]));
        } else {
            assert(white_space(s[i1]));
        }
    } else if i2 < j2 {
        if i2 < i1 {
            assert(white_space(s[i2]));
        } else {
            assert(white_space(s[i2]));
        }
    } else {
        assert(t1 =~= t2);
    }
}

/// Relies on `str::trim`: the string without its leading and trailing
/// characters that have the Unicode `White_Space` property.
#[verifier::external_body]
fn trim(s: &str) -> (r: &str)
    ensures
        is_trim_of(s@, r@),
{
    s.trim()
}

/// Relies on `str::to_lowercase`: the lowercase form of each character; the
/// result depends on the characters alone.
#[verifier::external_body]
fn lowercase(s: &str) -> (r: String)
    ensures
        r@ == lower_of(s@),
{
    s.to_lowercase()
}

/// Relies on `UnicodeSegmentation::split_word_bounds`: the pieces of a string
/// between its UAX#29 word boundaries, in order; they concatenate to the
/// string.
#[verifier::external_body]
fn word_bounds(s: &str) -> (r: Vec<&str>)
    ensures
        r@.len() == word_bounds_of(s@).len(),
        concat_all(r@.map_values(|t: &str| t@)) == s@,
        forall|i: int| 0 <= i < r@.len() ==> #[trigger] r@[i]@ == word_bounds_of(s@)[i],
{
    s.split_word_bounds().collect()
}

/// Whether `c` has the Unicode `White_Space` property.
fn is_whitespace(c: char) -> (r: bool)
    ensures
        r == white_space(c),
{
    let u = c as u32;
    (0x09 <= u && u <= 0x0D) || u == 0x20 || u == 0x85 || u == 0xA0 || u == 0x1680 || (0x2000 <= u
        && u <= 0x200A) || u == 0x2028 || u == 0x2029 || u == 0x202F || u == 0x205F || u == 0x3000
}

/// A piece is a token when it is not empty and does not start with white space.
pub open spec fn is_token(t: Seq<char>) -> bool {
    t.len() > 0 && !white_space(t[0])
}

/// The pieces that are tokens, in order.
pub open spec fn tokens_of(ws: Seq<Seq<char>>) -> Seq<Seq<char>>
    decreases ws.len(),
{
    if ws.len() == 0 {
        Seq::empty()
    } else if is_token(ws.last()) {
        tokens_of(ws.drop_last()).push(ws.last())
    } else {
        tokens_of(ws.drop_last())
    }
}

/// The tokens of a query.
pub open spec fn query_tokens(q: Seq<char>) -> Seq<Seq<char>> {
    tokens_of(word_bounds_of(lower_of(trimmed(q))))
}

/// Normalizes a string: trims leading and trailing white space and turns it
/// to lowercase.
pub fn normalize(s: &str) -> (r: String)
    ensures
        r@ == lower_of(trimmed(s@)),
{
    let t = trim(s);
    proof {
        lemma_trim_unique(s@, t@, trimmed(s@));
    }
    lowercase(t)
}

/// Whether a piece starts with white space.
fn starts_with_whitespace(t: &str) -> (r: bool)
    ensures
        r == (t@.len() > 0 && white_space(t@[0])),
{
    let mut it = t.chars();
    match it.next() {
        Some(c) => is_whitespace(c),
        None => false,
    }
}

/// Splits a string at its word boundaries and keeps the pieces that are
/// tokens.
pub fn tokenize(s: &str) -> (r: Vec<&str>)
    ensures
        r@.len() == tokens_of(word_bounds_of(s@)).len(),
        forall|i: int| 0 <= i < r@.len() ==> #[trigger] r@[i]@ == tokens_of(word_bounds_of(s@))[i],
{
    let ws = word_bounds(s);
    let ghost wv = word_bounds_of(s@);
    let mut out: Vec<&str> = Vec::new();
    let mut i: usize = 0;
    while i < ws.len()
        invariant
            i <= ws@.len(),
            ws@.len() == wv.len(),
            forall|x: int| 0 <= x < ws@.len() ==> #[trigger] ws@[x]@ == wv[x],
            out@.len() == tokens_of(wv.take(i as int)).len(),
            forall|x: int| 0 <= x < out@.len() ==> #[trigger] out@[x]@ == tokens_of(
                wv.take(i as int),
            )[x],
        decreases ws@.len() - i,
    {
        let t = ws[i];
        proof {
            assert(wv.take(i + 1).drop_last() =~= wv.take(i as int));
            assert(wv.take(i + 1).last() == wv[i as int]);
        }
        if !t.is_empty() && !starts_with_whitespace(t) {
            out.push(t);
        }
        i = i + 1;
    }
    proof {
        assert(wv.take(ws@.len() as int) =~= wv);
    }
    out
}

/// The tokens of a query, in order.
pub struct Tokens {
    tokens: Vec<String>,
}

impl View for Tokens {
    type V = Seq<Seq<char>>;

    closed spec fn view(&self) -> Seq<Seq<char>> {
        self.tokens@.map_values(|t: String| t@)
    }
}

/// A run of consecutive query tokens, `start .. end`.
#[derive(Clone, Copy, Debug, PartialEq, Eq, Structural)]
pub struct RefTokens {
    pub start: usize,
    pub end: usize,
}

/// The words of `ts` joined by single spaces.
pub open spec fn joined(ts: Seq<Seq<char>>) -> Seq<char>
    decreases ts.len(),
{
    if ts.len() == 0 {
        Seq::empty()
    } else if ts.len() == 1 {
        ts[0]
    } else {
        joined(ts.drop_last()) + seq![' '] + ts.last()
    }
}

impl Tokens {
    /// Normalizes and tokenizes a query.
    pub fn new(q: &str) -> (r: Self)
        ensures
            r@ == query_tokens(q@),
    {
        let normalized = normalize(q);
        let pieces = tokenize(normalized.as_str());
        let mut tokens: Vec<String> = Vec::new();
        let mut i: usize = 0;
        while i < pieces.len()
            invariant
                i <= pieces@.len(),
                tokens@.len() == i,
                forall|x: int| 0 <= x < i ==> #[trigger] tokens@[x]@ == pieces@[x]@,
            decreases pieces@.len() - i,
        {
            tokens.push(pieces[i].to_owned());
            i = i + 1;
        }
        let r = Tokens { tokens };
        proof {
            assert(r@ =~= query_tokens(q@));
        }
        r
    }

    /// Number of tokens.
    pub fn len(&self) -> (r: usize)
        ensures
            r == self@.len(),
    {
        self.tokens.len()
    }

    /// The run of all tokens.
    pub fn as_ref(&self) -> (r: RefTokens)
        ensures
            r.start == 0,
            r.end == self@.len(),
    {
        RefTokens { start: 0, end: self.tokens.len() }
    }

    /// The text of a run: its tokens joined by single spaces.
    pub fn text(&self, run: RefTokens) -> (r: String)
        requires
            run.start <= run.end <= self@.len(),
        ensures
            r@ == joined(self@.subrange(run.start as int, run.end as int)),
    {
        let mut out = String::new();
        let mut i: usize = run.start;
        proof {
            assert(self@.subrange(run.start as int, run.start as int) =~= Seq::<Seq<char>>::empty());
        }
        while i < run.end
            invariant
                run.start <= i <= run.end,
                run.end <= self@.len(),
                out@ == joined(self@.subrange(run.start as int, i as int)),
            decreases run.end - i,
        {
            let ghost prev = self@.subrange(run.start as int, i as int);
            let ghost next = self@.subrange(run.start as int, i + 1);
            proof {
                assert(next.drop_last() =~= prev);
                assert(next.last() == self@[i as int]);
                assert(self.tokens@[i as int]@ == self@[i as int]);
            }
            if i > run.start {
                out.append(" ");
                proof {
                    reveal_strlit(" ");
                }
            } else {
                proof {
                    assert(next.len() == 1);
                }
            }
            out.append(self.tokens[i].as_str());
            proof {
                if i > run.start {
                    assert(out@ =~= joined(prev) + seq![' '] + self@[i as int]);
                } else {
                    assert(out@ =~= self@[i as int]);
                }
            }
            i = i + 1;
        }
        out
    }
}

/// Largest number of tokens that a merged group may hold.
pub const MAX_WINDOW_LEN: usize = 3;

impl RefTokens {
    /// Number of tokens in the run.
    pub fn len(&self) -> (r: usize)
        requires
            self.start <= self.end,
        ensures
            r == self.end - self.start,
    {
        self.end - self.start
    }

    /// Whether the run holds no token.
    pub fn is_empty(&self) -> (r: bool)
        requires
            self.start <= self.end,
        ensures
            r == (self.start == self.end),
    {
        self.end == self.start
    }

    /// How many runs the planner may look at for a query of this length:
    /// `n * (max(l, n) - n + 1) + n * (n - 1) / 2` with `n` the largest
    /// group size.
    pub fn reserve_len(&self) -> (r: usize)
        requires
            self.start <= self.end,
            self.end - self.start <= usize::MAX / 4,
        ensures
            r == MAX_WINDOW_LEN * ((if self.end - self.start > MAX_WINDOW_LEN {
                self.end - self.start
            } else {
                MAX_WINDOW_LEN as int
            }) - MAX_WINDOW_LEN + 1) + ((MAX_WINDOW_LEN - 1) * MAX_WINDOW_LEN) / 2,
    {
        let n = MAX_WINDOW_LEN;
        let l = self.end - self.start;
        let m = if l > n {
            l
        } else {
            n
        };
        n * (m - n + 1) + ((n - 1) * n) / 2
    }

    /// The first and last token indices of the run, as a pair.
    pub fn range(&self) -> (r: (usize, usize))
        ensures
            r == (self.start, self.end),
    {
        (self.start, self.end)
    }

    /// Splits the run after its first `i` tokens.
    pub fn split_at(&self, i: usize) -> (r: (RefTokens, RefTokens))
        requires
            self.start <= self.end,
            i <= self.end - self.start,
        ensures
            r.0 == (RefTokens { start: self.start, end: (self.start + i) as usize }),
            r.1 == (RefTokens { start: (self.start + i) as usize, end: self.end }),
    {
        (
            RefTokens { start: self.start, end: self.start + i },
            RefTokens { start: self.start + i, end: self.end },
        )
    }

    /// The one-token runs of the run, in order.
    pub fn ref_token_iter(&self) -> (r: Vec<RefTokens>)
        requires
            self.start <= self.end,
        ensures
            r@.len() == self.end - self.start,
            forall|x: int|
                0 <= x < r@.len() ==> #[trigger] r@[x] == (RefTokens {
                    start: (self.start + x) as usize,
                    end: (self.start + x + 1) as usize,
                }),
    {
        let mut out: Vec<RefTokens> = Vec::new();
        let mut i: usize = self.start;
        while i < self.end
            invariant
                self.start <= i <= self.end,
                out@.len() == i - self.start,
                forall|x: int|
                    0 <= x < out@.len() ==> #[trigger] out@[x] == (RefTokens {
                        start: (self.start + x) as usize,
                        end: (self.start + x + 1) as usize,
                    }),
            decreases self.end - i,
        {
            out.push(RefTokens { start: i, end: i + 1 });
            i = i + 1;
        }
        out
    }
}

} // verus!
