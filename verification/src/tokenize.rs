//! The n-gram tokenizer: lower-cased text is split into every contiguous
//! run of [`MIN_GRAM`] to [`MAX_GRAM`] code points at every starting
//! offset. The same tokenizer serves index building and query parsing, so
//! recall is guaranteed by construction.

use vstd::prelude::*;

verus! {

/// Shortest n-gram emitted, in code points.
pub const MIN_GRAM: usize = 2;

/// Longest n-gram emitted, in code points.
pub const MAX_GRAM: usize = 10;

/// Mathematical form of a token: a term with the code-point offset at
/// which it starts.
pub struct TokenV {
    pub term: Seq<char>,
    pub start: int,
}

/// A term (an n-gram of the lower-cased text) together with the
/// code-point offset at which it starts.
pub struct Token {
    pub term: String,
    pub start: usize,
}

impl View for Token {
    type V = TokenV;

    open spec fn view(&self) -> TokenV {
        TokenV { term: self.term@, start: self.start as int }
    }
}

/// The tokens of `s` that start at `start` and have length `k` or more
/// (up to [`MAX_GRAM`] and to the end of `s`), shortest first.
pub open spec fn grams_at(s: Seq<char>, start: int, k: int) -> Seq<TokenV>
    decreases MAX_GRAM + 1 - k,
{
    if k > MAX_GRAM as int || start + k > s.len() || k < 0 {
        Seq::empty()
    } else {
        seq![TokenV { term: s.subrange(start, start + k), start }] + grams_at(s, start, k + 1)
    }
}

/// All tokens of `s` whose start offset is `start` or later, ordered by
/// start offset, then by length.
pub open spec fn tokens_from(s: Seq<char>, start: int) -> Seq<TokenV>
    decreases s.len() - start,
    when start >= 0
{
    if start >= s.len() {
        Seq::empty()
    } else {
        grams_at(s, start, MIN_GRAM as int) + tokens_from(s, start + 1)
    }
}

/// Every token of `s`: each contiguous run of [`MIN_GRAM`] to
/// [`MAX_GRAM`] code points, at every offset, ordered by offset then
/// length.
pub open spec fn tokens_spec(s: Seq<char>) -> Seq<TokenV> {
    tokens_from(s, 0)
}

/// The views of a vector of tokens.
pub open spec fn tokens_view(ts: Seq<Token>) -> Seq<TokenV> {
    ts.map_values(|t: Token| t@)
}

/// Splits `text` into overlapping character n-grams of lengths
/// [`MIN_GRAM`] to [`MAX_GRAM`] at every code-point offset. The result is
/// exactly [`tokens_spec`] of the text.
pub fn tokenize(text: &str) -> (toks: Vec<Token>)
    ensures
        tokens_view(toks@) == tokens_spec(text@),
{
    let ghost s = text@;
    let n = text.unicode_len();
    let mut toks: Vec<Token> = Vec::new();
    let mut start: usize = 0;
    proof {
        assert(tokens_spec(s) =~= tokens_view(toks@) + tokens_from(s, 0));
    }
    while start < n
        invariant
            n == s.len(),
            s == text@,
            start <= n,
            tokens_spec(s) == tokens_view(toks@) + tokens_from(s, start as int),
        decreases n - start,
    {
        let mut k: usize = MIN_GRAM;
        proof {
            assert(tokens_from(s, start as int) == grams_at(s, start as int, MIN_GRAM as int)
                + tokens_from(s, start as int + 1));
            assert(tokens_spec(s) =~= tokens_view(toks@) + grams_at(s, start as int, k as int)
                + tokens_from(s, start as int + 1));
        }
        while k <= MAX_GRAM && k <= n - start
            invariant
                n == s.len(),
                s == text@,
                start < n,
                MIN_GRAM <= k,
                tokens_spec(s) == tokens_view(toks@) + grams_at(s, start as int, k as int)
                    + tokens_from(s, start as int + 1),
            decreases MAX_GRAM + 1 - k,
        {
            let sub = text.substring_char(start, start + k);
            let tok = Token { term: sub.to_owned(), start };
            let ghost old_toks = toks@;
            toks.push(tok);
            proof {
                assert(grams_at(s, start as int, k as int) == seq![
                    TokenV { term: s.subrange(start as int, start as int + k as int), start: start as int },
                ] + grams_at(s, start as int, k as int + 1));
                assert(tokens_view(toks@) =~= tokens_view(old_toks).push(tok@));
                assert(tokens_view(toks@) + grams_at(s, start as int, k as int + 1)
                    + tokens_from(s, start as int + 1) =~= tokens_view(old_toks)
                    + grams_at(s, start as int, k as int) + tokens_from(s, start as int + 1));
            }
            k = k + 1;
        }
        proof {
            assert(grams_at(s, start as int, k as int) =~= Seq::<TokenV>::empty());
            assert(tokens_view(toks@) + grams_at(s, start as int, k as int)
                + tokens_from(s, start as int + 1) =~= tokens_view(toks@)
                + tokens_from(s, start as int + 1));
        }
        start = start + 1;
    }
    proof {
        assert(tokens_from(s, n as int) =~= Seq::<TokenV>::empty());
        assert(tokens_view(toks@) + tokens_from(s, n as int) =~= tokens_view(toks@));
    }
    toks
}

/// Among the grams of one start offset, the one of length `k` occurs.
proof fn lemma_grams_at_contains(s: Seq<char>, start: int, k0: int, k: int)
    requires
        MIN_GRAM <= k0 <= k <= MAX_GRAM,
        0 <= start,
        start + k <= s.len(),
    ensures
        grams_at(s, start, k0).contains(TokenV { term: s.subrange(start, start + k), start }),
    decreases k - k0,
{
    let g = grams_at(s, start, k0);
    assert(g == seq![TokenV { term: s.subrange(start, start + k0), start }] + grams_at(
        s,
        start,
        k0 + 1,
    ));
    if k0 == k {
        assert(g[0] == TokenV { term: s.subrange(start, start + k), start });
    } else {
        lemma_grams_at_contains(s, start, k0 + 1, k);
        let t = TokenV { term: s.subrange(start, start + k), start };
        let gnext = grams_at(s, start, k0 + 1);
        let i = choose|i: int| 0 <= i < gnext.len() && #[trigger] gnext[i] == t;
        assert(g[i + 1] == t);
    }
}

/// Every contiguous run of an admissible length, at any offset at or after
/// `j`, appears among the tokens from `j`.
proof fn lemma_tokens_from_contains(s: Seq<char>, j: int, start: int, k: int)
    requires
        0 <= j <= start,
        MIN_GRAM <= k <= MAX_GRAM,
        start + k <= s.len(),
    ensures
        tokens_from(s, j).contains(TokenV { term: s.subrange(start, start + k), start }),
    decreases start - j,
{
    let t = TokenV { term: s.subrange(start, start + k), start };
    assert(j < s.len());
    assert(tokens_from(s, j) == grams_at(s, j, MIN_GRAM as int) + tokens_from(s, j + 1));
    if j == start {
        lemma_grams_at_contains(s, start, MIN_GRAM as int, k);
        let g = grams_at(s, j, MIN_GRAM as int);
        let i = choose|i: int| 0 <= i < g.len() && #[trigger] g[i] == t;
        assert(tokens_from(s, j)[i] == t);
    } else {
        lemma_tokens_from_contains(s, j + 1, start, k);
        let rest = tokens_from(s, j + 1);
        let i = choose|i: int| 0 <= i < rest.len() && #[trigger] rest[i] == t;
        assert(tokens_from(s, j)[grams_at(s, j, MIN_GRAM as int).len() + i] == t);
    }
}

/// Substring completeness of the tokenizer: every contiguous run of
/// [`MIN_GRAM`] to [`MAX_GRAM`] code points of `s` is emitted as a token,
/// at its own offset.
pub proof fn lemma_tokens_complete(s: Seq<char>, start: int, k: int)
    requires
        0 <= start,
        MIN_GRAM <= k <= MAX_GRAM,
        start + k <= s.len(),
    ensures
        tokens_spec(s).contains(TokenV { term: s.subrange(start, start + k), start }),
{
    lemma_tokens_from_contains(s, 0, start, k);
}

/// Every gram of one start offset has an admissible length and lies
/// within the text.
proof fn lemma_grams_at_len(s: Seq<char>, start: int, k0: int)
    requires
        MIN_GRAM <= k0,
        0 <= start,
    ensures
        forall|ix: int|
            0 <= ix < grams_at(s, start, k0).len() ==> MIN_GRAM <= (#[trigger] grams_at(
                s,
                start,
                k0,
            )[ix]).term.len() <= MAX_GRAM,
    decreases MAX_GRAM + 1 - k0,
{
    if k0 > MAX_GRAM as int || start + k0 > s.len() {
    } else {
        lemma_grams_at_len(s, start, k0 + 1);
        let g = grams_at(s, start, k0);
        assert(g == seq![TokenV { term: s.subrange(start, start + k0), start }] + grams_at(
            s,
            start,
            k0 + 1,
        ));
        assert(forall|ix: int|
            1 <= ix < g.len() ==> g[ix] == #[trigger] grams_at(s, start, k0 + 1)[ix - 1]);
    }
}

/// Every emitted token's term has between [`MIN_GRAM`] and [`MAX_GRAM`]
/// code points.
pub proof fn lemma_tokens_len(s: Seq<char>, j: int)
    requires
        0 <= j,
    ensures
        forall|ix: int|
            0 <= ix < tokens_from(s, j).len() ==> MIN_GRAM <= (#[trigger] tokens_from(
                s,
                j,
            )[ix]).term.len() <= MAX_GRAM,
    decreases s.len() - j,
{
    if j >= s.len() {
    } else {
        lemma_grams_at_len(s, j, MIN_GRAM as int);
        lemma_tokens_len(s, j + 1);
        let g = grams_at(s, j, MIN_GRAM as int);
        assert(tokens_from(s, j) == g + tokens_from(s, j + 1));
        assert(forall|ix: int| 0 <= ix < g.len() ==> #[trigger] tokens_from(s, j)[ix] == g[ix]);
        assert(forall|ix: int|
            g.len() <= ix < tokens_from(s, j).len() ==> #[trigger] tokens_from(s, j)[ix]
                == tokens_from(s, j + 1)[ix - g.len()]);
    }
}

/// How many tokens of `toks` carry the term `t`.
pub open spec fn count_term(toks: Seq<TokenV>, t: Seq<char>) -> nat
    decreases toks.len(),
{
    if toks.len() == 0 {
        0
    } else {
        (if toks[0].term == t {
            1nat
        } else {
            0nat
        }) + count_term(toks.drop_first(), t)
    }
}

/// How many offsets at or after `p` carry an occurrence of `t` in `s`.
pub open spec fn count_from(s: Seq<char>, t: Seq<char>, p: int) -> nat
    decreases s.len() - p,
    when 0 <= p && t.len() >= 1
{
    if p + t.len() > s.len() {
        0
    } else {
        (if s.subrange(p, p + t.len()) == t {
            1nat
        } else {
            0nat
        }) + count_from(s, t, p + 1)
    }
}

/// How many offsets of `s` carry an occurrence of `t`.
pub open spec fn count_occ(s: Seq<char>, t: Seq<char>) -> nat {
    count_from(s, t, 0)
}

/// Counting terms distributes over concatenation of token lists.
pub proof fn lemma_count_term_concat(a: Seq<TokenV>, b: Seq<TokenV>, t: Seq<char>)
    ensures
        count_term(a + b, t) == count_term(a, t) + count_term(b, t),
    decreases a.len(),
{
    if a.len() == 0 {
        assert(a + b =~= b);
    } else {
        assert((a + b).drop_first() =~= a.drop_first() + b);
        lemma_count_term_concat(a.drop_first(), b, t);
    }
}

/// Among the grams of one start offset (lengths `k0` and up), the term `t`
/// occurs exactly once if `t` is the run of `s` of length `t.len()` at
/// that offset, and never otherwise.
proof fn lemma_count_grams_at(s: Seq<char>, start: int, k0: int, t: Seq<char>)
    requires
        MIN_GRAM <= k0,
        0 <= start,
    ensures
        count_term(grams_at(s, start, k0), t) == if k0 <= t.len() <= MAX_GRAM && start + t.len()
            <= s.len() && s.subrange(start, start + t.len()) == t {
            1nat
        } else {
            0nat
        },
    decreases MAX_GRAM + 1 - k0,
{
    if k0 > MAX_GRAM as int || start + k0 > s.len() {
        assert(count_term(grams_at(s, start, k0), t) == 0);
        if k0 <= t.len() <= MAX_GRAM && start + t.len() <= s.len() {
            assert(start + k0 <= start + t.len());
        }
    } else {
        let g = grams_at(s, start, k0);
        let head = TokenV { term: s.subrange(start, start + k0), start };
        assert(g == seq![head] + grams_at(s, start, k0 + 1));
        assert(g.drop_first() =~= grams_at(s, start, k0 + 1));
        lemma_count_grams_at(s, start, k0 + 1, t);
        if head.term == t {
            assert(t.len() == k0);
        }
        if t.len() == k0 && start + t.len() <= s.len() && s.subrange(start, start + t.len()) == t {
            assert(head.term == t);
        }
    }
}

/// Counting a term among the tokens from offset `j` equals counting the
/// occurrences of that term from offset `j`.
proof fn lemma_count_tokens_from(s: Seq<char>, t: Seq<char>, j: int)
    requires
        0 <= j,
        MIN_GRAM <= t.len() <= MAX_GRAM,
    ensures
        count_term(tokens_from(s, j), t) == count_from(s, t, j),
    decreases s.len() - j,
{
    if j >= s.len() {
        assert(count_term(tokens_from(s, j), t) == 0);
        assert(j + t.len() > s.len());
    } else {
        assert(tokens_from(s, j) == grams_at(s, j, MIN_GRAM as int) + tokens_from(s, j + 1));
        lemma_count_term_concat(grams_at(s, j, MIN_GRAM as int), tokens_from(s, j + 1), t);
        lemma_count_grams_at(s, j, MIN_GRAM as int, t);
        lemma_count_tokens_from(s, t, j + 1);
    }
}

/// A term of admissible length is emitted exactly as often as it occurs
/// in the text: the token stream neither misses nor invents occurrences.
pub proof fn lemma_token_count(s: Seq<char>, t: Seq<char>)
    requires
        MIN_GRAM <= t.len() <= MAX_GRAM,
    ensures
        count_term(tokens_spec(s), t) == count_occ(s, t),
{
    lemma_count_tokens_from(s, t, 0);
}

} // verus!
// === Occurrence offsets ===
//
// Beyond how often a term occurs, where it occurs: the ascending list of
// its start offsets, and the fact that the token stream carries exactly
// those offsets as the starts of the tokens with that term.

verus! {

/// The offsets at or after `p` where `t` occurs in `s`, ascending.
pub open spec fn offsets_from(s: Seq<char>, t: Seq<char>, p: int) -> Seq<int>
    decreases s.len() - p,
    when 0 <= p && t.len() >= 1
{
    if p + t.len() > s.len() {
        Seq::empty()
    } else {
        (if s.subrange(p, p + t.len()) == t {
            seq![p]
        } else {
            Seq::empty()
        }) + offsets_from(s, t, p + 1)
    }
}

/// The offsets where `t` occurs in `s`, ascending.
pub open spec fn offsets_of(s: Seq<char>, t: Seq<char>) -> Seq<int> {
    offsets_from(s, t, 0)
}

/// There are as many occurrence offsets as occurrences.
pub proof fn lemma_offsets_count(s: Seq<char>, t: Seq<char>, p: int)
    requires
        0 <= p,
        t.len() >= 1,
    ensures
        offsets_from(s, t, p).len() == count_from(s, t, p),
    decreases s.len() - p,
{
    if p + t.len() <= s.len() {
        lemma_offsets_count(s, t, p + 1);
    }
}

/// The start offsets of the tokens of `toks` carrying term `t`, in
/// stream order.
pub open spec fn starts_of(toks: Seq<TokenV>, t: Seq<char>) -> Seq<int>
    decreases toks.len(),
{
    if toks.len() == 0 {
        Seq::empty()
    } else {
        (if toks[0].term == t {
            seq![toks[0].start]
        } else {
            Seq::empty()
        }) + starts_of(toks.drop_first(), t)
    }
}

/// Collecting term starts distributes over concatenation.
pub proof fn lemma_starts_concat(a: Seq<TokenV>, b: Seq<TokenV>, t: Seq<char>)
    ensures
        starts_of(a + b, t) == starts_of(a, t) + starts_of(b, t),
    decreases a.len(),
{
    if a.len() == 0 {
        assert(a + b =~= b);
        assert(starts_of(a, t) + starts_of(b, t) =~= starts_of(b, t));
    } else {
        assert((a + b).drop_first() =~= a.drop_first() + b);
        lemma_starts_concat(a.drop_first(), b, t);
        assert((if a[0].term == t {
            seq![a[0].start]
        } else {
            Seq::<int>::empty()
        }) + (starts_of(a.drop_first(), t) + starts_of(b, t)) =~= ((if a[0].term == t {
            seq![a[0].start]
        } else {
            Seq::<int>::empty()
        }) + starts_of(a.drop_first(), t)) + starts_of(b, t));
    }
}

/// Among the grams of one start offset, term `t` starts there exactly
/// when `t` is the run of that length at that offset.
proof fn lemma_starts_grams_at(s: Seq<char>, start: int, k0: int, t: Seq<char>)
    requires
        MIN_GRAM <= k0,
        0 <= start,
    ensures
        starts_of(grams_at(s, start, k0), t) == if k0 <= t.len() <= MAX_GRAM && start + t.len()
            <= s.len() && s.subrange(start, start + t.len()) == t {
            seq![start]
        } else {
            Seq::<int>::empty()
        },
    decreases MAX_GRAM + 1 - k0,
{
    if k0 > MAX_GRAM as int || start + k0 > s.len() {
        assert(starts_of(grams_at(s, start, k0), t) =~= Seq::<int>::empty());
        if k0 <= t.len() <= MAX_GRAM && start + t.len() <= s.len() {
            assert(start + k0 <= start + t.len());
        }
    } else {
        let g = grams_at(s, start, k0);
        let head = TokenV { term: s.subrange(start, start + k0), start };
        assert(g == seq![head] + grams_at(s, start, k0 + 1));
        assert(g.drop_first() =~= grams_at(s, start, k0 + 1));
        lemma_starts_grams_at(s, start, k0 + 1, t);
        if head.term == t {
            assert(t.len() == k0);
        }
        if t.len() == k0 && start + t.len() <= s.len() && s.subrange(start, start + t.len()) == t {
            assert(head.term == t);
        }
        assert(starts_of(g, t) =~= (if head.term == t {
            seq![start]
        } else {
            Seq::<int>::empty()
        }) + starts_of(g.drop_first(), t));
        if head.term != t {
            assert(starts_of(g, t) =~= starts_of(g.drop_first(), t));
        } else {
            assert(starts_of(g.drop_first(), t) =~= Seq::<int>::empty());
            assert(starts_of(g, t) =~= seq![start]);
        }
    }
}

proof fn lemma_starts_tokens_from(s: Seq<char>, t: Seq<char>, j: int)
    requires
        0 <= j,
        MIN_GRAM <= t.len() <= MAX_GRAM,
    ensures
        starts_of(tokens_from(s, j), t) == offsets_from(s, t, j),
    decreases s.len() - j,
{
    if j >= s.len() {
        assert(starts_of(tokens_from(s, j), t) =~= Seq::<int>::empty());
        assert(j + t.len() > s.len());
    } else {
        assert(tokens_from(s, j) == grams_at(s, j, MIN_GRAM as int) + tokens_from(s, j + 1));
        lemma_starts_concat(grams_at(s, j, MIN_GRAM as int), tokens_from(s, j + 1), t);
        lemma_starts_grams_at(s, j, MIN_GRAM as int, t);
        lemma_starts_tokens_from(s, t, j + 1);
        if j + t.len() > s.len() {
            assert(starts_of(tokens_from(s, j), t) =~= offsets_from(s, t, j));
        } else {
            assert(starts_of(tokens_from(s, j), t) =~= offsets_from(s, t, j));
        }
    }
}

/// The stream's tokens with term `t` start exactly at the offsets where
/// `t` occurs, in ascending order.
pub proof fn lemma_token_starts(s: Seq<char>, t: Seq<char>)
    requires
        MIN_GRAM <= t.len() <= MAX_GRAM,
    ensures
        starts_of(tokens_spec(s), t) == offsets_of(s, t),
{
    lemma_starts_tokens_from(s, t, 0);
}

} // verus!
