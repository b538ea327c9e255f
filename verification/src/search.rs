//! The query engine: a free-text query is lower-cased, split into
//! whitespace-delimited words, each word is tokenized with the index
//! tokenizer, and every document matching at least one term (OR
//! semantics, across terms and across both fields) is scored by term
//! frequency with title matches counting [`TITLE_BOOST`] times, ranked by
//! descending score with ties broken by insertion order, cut to the
//! caller's limit, and hydrated with stored fields and an excerpt.

use vstd::prelude::*;

use crate::index::{
    find_term, lemma_find_term, terms_view, tf_in, tf_postings, IndexV, PostingV, SearchIndex,
    TermPostings,
};
use crate::text::{excerpt, excerpt_spec, fold_case, is_space, is_space_char, lower_of};
use crate::tokenize::{tokenize, tokens_spec, tokens_view, TokenV};

verus! {

/// How many times more a title match counts than a content match of the
/// same term.
pub const TITLE_BOOST: u64 = 2;

/// Excerpt bound for result snippets, in code points.
pub const SNIPPET_MAX: usize = 200;

/// One ranked hit: the stored fields of the matched conversation, its
/// score, and a bounded excerpt of its content.
#[derive(Debug)]
pub struct SearchResult {
    pub conversation_id: String,
    pub title: String,
    pub date: String,
    pub score: u64,
    pub snippet: String,
}

/// Mathematical form of a search result.
#[verifier::ext_equal]
pub struct ResultV {
    pub conversation_id: Seq<char>,
    pub title: Seq<char>,
    pub date: Seq<char>,
    pub score: int,
    pub snippet: Seq<char>,
}

impl View for SearchResult {
    type V = ResultV;

    open spec fn view(&self) -> ResultV {
        ResultV {
            conversation_id: self.conversation_id@,
            title: self.title@,
            date: self.date@,
            score: self.score as int,
            snippet: self.snippet@,
        }
    }
}

/// The views of a result vector.
pub open spec fn results_view(rs: Seq<SearchResult>) -> Seq<ResultV> {
    rs.map_values(|r: SearchResult| r@)
}

/// The views of a vector of strings.
pub open spec fn strs_view(ss: Seq<String>) -> Seq<Seq<char>> {
    ss.map_values(|s: String| s@)
}

/// First offset at or after `i` that ends the word starting there: the
/// next whitespace character, or the end of the text.
pub open spec fn word_end(s: Seq<char>, i: int) -> int
    decreases s.len() - i,
    when 0 <= i
{
    if i >= s.len() {
        i
    } else if is_space_char(s[i]) {
        i
    } else {
        word_end(s, i + 1)
    }
}

/// [`word_end`] stays within the text and strictly advances on a
/// non-space character.
pub proof fn lemma_word_end(s: Seq<char>, i: int)
    requires
        0 <= i <= s.len(),
    ensures
        i <= word_end(s, i) <= s.len(),
        i < s.len() && !is_space_char(s[i]) ==> word_end(s, i) > i,
    decreases s.len() - i,
{
    if i < s.len() && !is_space_char(s[i]) {
        lemma_word_end(s, i + 1);
    }
}

/// If everything in `[i, j)` is non-space and `j` is the end of the text
/// or a space, then `j` is where the word starting at `i` ends.
pub proof fn lemma_word_end_pin(s: Seq<char>, i: int, j: int)
    requires
        0 <= i <= j <= s.len(),
        forall|k: int| i <= k < j ==> !is_space_char(s[k]),
        j == s.len() || is_space_char(s[j]),
    ensures
        word_end(s, i) == j,
    decreases j - i,
{
    if i < j {
        lemma_word_end_pin(s, i + 1, j);
    }
}

/// The whitespace-delimited words of `s` from offset `i` on: maximal
/// non-space runs, in order.
pub open spec fn words_from(s: Seq<char>, i: int) -> Seq<Seq<char>>
    decreases s.len() - i,
    when 0 <= i
    via words_from_decreases
{
    if i >= s.len() {
        Seq::empty()
    } else if is_space_char(s[i]) {
        words_from(s, i + 1)
    } else {
        seq![s.subrange(i, word_end(s, i))] + words_from(s, word_end(s, i))
    }
}

#[via_fn]
proof fn words_from_decreases(s: Seq<char>, i: int) {
    if 0 <= i && i < s.len() && !is_space_char(s[i]) {
        lemma_word_end(s, i);
    }
}

/// The whitespace-delimited words of `s`.
pub open spec fn words_of(s: Seq<char>) -> Seq<Seq<char>> {
    words_from(s, 0)
}

/// The terms of a token list, in order.
pub open spec fn terms_of_tokens(toks: Seq<TokenV>) -> Seq<Seq<char>> {
    toks.map_values(|t: TokenV| t.term)
}

/// All terms of a query: each word tokenized independently, in order.
pub open spec fn query_terms(ws: Seq<Seq<char>>) -> Seq<Seq<char>>
    decreases ws.len(),
{
    if ws.len() == 0 {
        Seq::empty()
    } else {
        terms_of_tokens(tokens_spec(ws[0])) + query_terms(ws.drop_first())
    }
}

/// Addition capped at the largest representable score.
pub open spec fn sat_add(a: int, b: int) -> int {
    if a + b > u64::MAX {
        u64::MAX as int
    } else {
        a + b
    }
}

/// One term's contribution to a doc's score: its title frequency counted
/// [`TITLE_BOOST`] times plus its content frequency, capped.
pub open spec fn term_score(iv: IndexV, t: Seq<char>, d: int) -> int {
    sat_add(sat_add(tf_in(iv.title_terms, t, d), tf_in(iv.title_terms, t, d)), tf_in(
        iv.content_terms,
        t,
        d,
    ))
}

/// A doc's score for a term list: the capped sum of the terms'
/// contributions.
pub open spec fn score_terms(iv: IndexV, terms: Seq<Seq<char>>, d: int) -> int
    decreases terms.len(),
{
    if terms.len() == 0 {
        0
    } else {
        sat_add(score_terms(iv, terms.drop_last(), d), term_score(iv, terms.last(), d))
    }
}

/// A matching doc with its score.
#[derive(Debug, Clone, Copy)]
pub struct Candidate {
    pub doc: usize,
    pub score: u64,
}

/// Mathematical form of a candidate.
#[verifier::ext_equal]
pub struct CandV {
    pub doc: int,
    pub score: int,
}

impl View for Candidate {
    type V = CandV;

    open spec fn view(&self) -> CandV {
        CandV { doc: self.doc as int, score: self.score as int }
    }
}

/// The views of a candidate vector.
pub open spec fn cands_view(cs: Seq<Candidate>) -> Seq<CandV> {
    cs.map_values(|c: Candidate| c@)
}

/// The candidates among the first `n` docs: every doc with a positive
/// score, in insertion order.
pub open spec fn cands_upto(iv: IndexV, terms: Seq<Seq<char>>, n: int) -> Seq<CandV>
    decreases n,
    when n >= 0
{
    if n <= 0 {
        Seq::empty()
    } else {
        let prev = cands_upto(iv, terms, n - 1);
        if score_terms(iv, terms, n - 1) > 0 {
            prev.push(CandV { doc: n - 1, score: score_terms(iv, terms, n - 1) })
        } else {
            prev
        }
    }
}

/// Insertion into a list sorted by descending score, after every entry
/// scoring at least as much (so equal scores keep their insertion order).
pub open spec fn insert_desc(rs: Seq<CandV>, c: CandV) -> Seq<CandV>
    decreases rs.len(),
{
    if rs.len() == 0 {
        seq![c]
    } else if rs[0].score < c.score {
        seq![c] + rs
    } else {
        seq![rs[0]] + insert_desc(rs.drop_first(), c)
    }
}

/// Stable ranking of the candidates by descending score: candidates are
/// inserted in order, each after all entries scoring at least as much.
pub open spec fn rank_spec(cs: Seq<CandV>) -> Seq<CandV>
    decreases cs.len(),
{
    if cs.len() == 0 {
        Seq::empty()
    } else {
        insert_desc(rank_spec(cs.drop_last()), cs.last())
    }
}

/// The limit actually applied: a non-positive limit falls back to 20.
pub open spec fn effective_limit(limit: int) -> int {
    if limit <= 0 {
        20
    } else {
        limit
    }
}

/// Hydration of one ranked candidate: stored fields, score, excerpt.
pub open spec fn result_of(iv: IndexV, c: CandV) -> ResultV {
    ResultV {
        conversation_id: iv.docs[c.doc].id,
        title: iv.docs[c.doc].title,
        date: iv.docs[c.doc].date,
        score: c.score,
        snippet: excerpt_spec(iv.docs[c.doc].content, SNIPPET_MAX as int),
    }
}

/// Hydration of a ranked candidate list.
pub open spec fn hydrate(iv: IndexV, cs: Seq<CandV>) -> Seq<ResultV> {
    cs.map_values(|c: CandV| result_of(iv, c))
}

/// What a search returns for the folded query `fq`: the matching docs
/// ranked by descending score (ties in insertion order), cut to the
/// effective limit, hydrated with stored fields and snippets.
pub open spec fn search_spec(iv: IndexV, fq: Seq<char>, limit: int) -> Seq<ResultV> {
    let terms = query_terms(words_of(fq));
    let ranked = rank_spec(cands_upto(iv, terms, iv.docs.len() as int));
    let keep = if ranked.len() <= effective_limit(limit) {
        ranked.len() as int
    } else {
        effective_limit(limit)
    };
    hydrate(iv, ranked.take(keep))
}

/// Splits `text` at whitespace into its maximal non-space runs.
pub fn split_words(text: &str) -> (words: Vec<String>)
    ensures
        strs_view(words@) == words_of(text@),
{
    let ghost s = text@;
    let n = text.unicode_len();
    let mut words: Vec<String> = Vec::new();
    let mut i: usize = 0;
    proof {
        assert(words_of(s) =~= strs_view(words@) + words_from(s, 0));
    }
    while i < n
        invariant
            s == text@,
            n == s.len(),
            i <= n,
            words_of(s) == strs_view(words@) + words_from(s, i as int),
        decreases n - i,
    {
        let c = text.get_char(i);
        if is_space(c) {
            proof {
                assert(words_from(s, i as int) == words_from(s, i as int + 1));
            }
            i = i + 1;
        } else {
            let mut j: usize = i + 1;
            while j < n && !is_space(text.get_char(j))
                invariant
                    s == text@,
                    n == s.len(),
                    i < j <= n,
                    !is_space_char(s[i as int]),
                    forall|k: int| i <= k < j ==> !is_space_char(s[k]),
                decreases n - j,
            {
                j = j + 1;
            }
            proof {
                lemma_word_end_pin(s, i as int, j as int);
            }
            let w = text.substring_char(i, j);
            let ghost old_words = words@;
            words.push(w.to_owned());
            proof {
                assert(words_from(s, i as int) == seq![s.subrange(i as int, j as int)]
                    + words_from(s, j as int));
                assert(strs_view(words@) =~= strs_view(old_words).push(w@));
                assert(strs_view(words@) + words_from(s, j as int) =~= strs_view(old_words)
                    + words_from(s, i as int));
            }
            i = j;
        }
    }
    proof {
        assert(words_from(s, n as int) =~= Seq::<Seq<char>>::empty());
        assert(strs_view(words@) + words_from(s, n as int) =~= strs_view(words@));
    }
    words
}

/// Tokenizes each word independently and concatenates the terms.
pub fn terms_of_query(words: &Vec<String>) -> (terms: Vec<String>)
    ensures
        strs_view(terms@) == query_terms(strs_view(words@)),
{
    let ghost wv = strs_view(words@);
    let mut terms: Vec<String> = Vec::new();
    let mut w: usize = 0;
    proof {
        assert(wv.skip(0) =~= wv);
        assert(query_terms(wv) =~= strs_view(terms@) + query_terms(wv.skip(0)));
    }
    while w < words.len()
        invariant
            wv == strs_view(words@),
            w <= words@.len(),
            query_terms(wv) == strs_view(terms@) + query_terms(wv.skip(w as int)),
        decreases words@.len() - w,
    {
        let toks = tokenize(words[w].as_str());
        let ghost tv = tokens_view(toks@);
        proof {
            assert(wv.skip(w as int)[0] == wv[w as int]);
            assert(wv.skip(w as int).drop_first() =~= wv.skip(w as int + 1));
            assert(query_terms(wv.skip(w as int)) == terms_of_tokens(tokens_spec(wv[w as int]))
                + query_terms(wv.skip(w as int + 1)));
        }
        let mut j: usize = 0;
        proof {
            assert(terms_of_tokens(tv).skip(0) =~= terms_of_tokens(tv));
            assert(query_terms(wv) =~= strs_view(terms@) + terms_of_tokens(tv).skip(0)
                + query_terms(wv.skip(w as int + 1)));
        }
        while j < toks.len()
            invariant
                wv == strs_view(words@),
                w < wv.len(),
                tv == tokens_view(toks@),
                j <= toks@.len(),
                query_terms(wv) == strs_view(terms@) + terms_of_tokens(tv).skip(j as int)
                    + query_terms(wv.skip(w as int + 1)),
            decreases toks@.len() - j,
        {
            let t = &toks[j];
            let ghost old_terms = terms@;
            terms.push(t.term.clone());
            proof {
                assert(terms_of_tokens(tv)[j as int] == tv[j as int].term);
                assert(strs_view(terms@) =~= strs_view(old_terms).push(t.term@));
                assert(terms_of_tokens(tv).skip(j as int).drop_first() =~= terms_of_tokens(
                    tv,
                ).skip(j as int + 1));
                assert(terms_of_tokens(tv).skip(j as int)[0] == tv[j as int].term);
                assert(strs_view(terms@) + terms_of_tokens(tv).skip(j as int + 1) =~= strs_view(
                    old_terms,
                ) + terms_of_tokens(tv).skip(j as int));
            }
            j = j + 1;
        }
        proof {
            assert(terms_of_tokens(tv).skip(tv.len() as int) =~= Seq::<Seq<char>>::empty());
            assert(strs_view(terms@) + terms_of_tokens(tv).skip(tv.len() as int) =~= strs_view(
                terms@,
            ));
        }
        w = w + 1;
    }
    proof {
        assert(wv.skip(wv.len() as int) =~= Seq::<Seq<char>>::empty());
        assert(query_terms(wv.skip(wv.len() as int)) =~= Seq::<Seq<char>>::empty());
        assert(strs_view(terms@) + Seq::<Seq<char>>::empty() =~= strs_view(terms@));
    }
    terms
}

/// Addition of scores, capped at the largest representable score.
fn sat_add_u64(a: u64, b: u64) -> (r: u64)
    ensures
        r as int == sat_add(a as int, b as int),
{
    if a > u64::MAX - b {
        u64::MAX
    } else {
        a + b
    }
}

/// A title frequency counted [`TITLE_BOOST`] times, capped.
fn boost_title(a: u64) -> (r: u64)
    ensures
        r as int == sat_add(a as int, a as int),
{
    if a > u64::MAX / TITLE_BOOST {
        u64::MAX
    } else {
        TITLE_BOOST * a
    }
}

/// Looks up the recorded term frequency of `term` for doc `d` in one
/// field dictionary.
fn tf_lookup(entries: &Vec<TermPostings>, term: &String, d: usize) -> (tf: usize)
    ensures
        tf as int == tf_in(terms_view(entries@), term@, d as int),
{
    let ghost es = terms_view(entries@);
    let n = entries.len();
    let mut i: usize = 0;
    let mut found = false;
    while i < n && !found
        invariant
            n == entries@.len(),
            es == terms_view(entries@),
            i <= n,
            !found ==> forall|j: int| 0 <= j < i ==> es[j].term != term@,
            found ==> i < n && es[i as int].term == term@ && (forall|j: int|
                0 <= j < i ==> es[j].term != term@),
        decreases n - i + (if found { 0int } else { 1int }),
    {
        if entries[i].term.eq(term) {
            found = true;
        } else {
            i = i + 1;
        }
    }
    if !found {
        proof {
            assert(find_term(es, term@) == es.len()) by {
                lemma_find_term(es, term@);
                if find_term(es, term@) < es.len() {
                    assert(es[find_term(es, term@)].term == term@);
                }
            }
        }
        return 0;
    }
    proof {
        assert(find_term(es, term@) == i as int) by {
            lemma_find_term(es, term@);
            if find_term(es, term@) < i as int {
                assert(es[find_term(es, term@)].term == term@);
            }
            if find_term(es, term@) > i as int {
                assert(es[i as int].term != term@);
            }
        }
    }
    let entry = &entries[i];
    let ghost psv = es[i as int].postings;
    proof {
        assert(entry@ == es[i as int]);
        assert(psv.skip(0) =~= psv);
    }
    let m = entry.postings.len();
    let mut k: usize = 0;
    while k < m
        invariant
            es == terms_view(entries@),
            find_term(es, term@) == i as int,
            i < es.len(),
            psv == es[i as int].postings,
            m == entry.postings@.len(),
            psv == entry@.postings,
            k <= m,
            tf_postings(psv, d as int) == tf_postings(psv.skip(k as int), d as int),
        decreases m - k,
    {
        proof {
            assert(psv.skip(k as int)[0] == psv[k as int]);
            assert(psv.skip(k as int).drop_first() =~= psv.skip(k as int + 1));
        }
        let p = &entry.postings[k];
        if p.doc == d {
            proof {
                assert(psv[k as int] == p@);
                assert(tf_postings(psv.skip(k as int), d as int) == psv[k as int].tf);
            }
            return p.tf;
        }
        k = k + 1;
    }
    proof {
        assert(psv.skip(m as int) =~= Seq::<PostingV>::empty());
        assert(tf_postings(Seq::<PostingV>::empty(), d as int) == 0);
    }
    0
}

/// Scores doc `d` against the query terms: for each term, its title
/// frequency counted [`TITLE_BOOST`] times plus its content frequency,
/// summed with capped addition.
fn score_doc(idx: &SearchIndex, terms: &Vec<String>, d: usize) -> (score: u64)
    ensures
        score as int == score_terms(idx@, strs_view(terms@), d as int),
{
    let ghost tv = strs_view(terms@);
    let mut score: u64 = 0;
    let mut j: usize = 0;
    proof {
        assert(tv.take(0) =~= Seq::<Seq<char>>::empty());
    }
    while j < terms.len()
        invariant
            tv == strs_view(terms@),
            j <= terms@.len(),
            score as int == score_terms(idx@, tv.take(j as int), d as int),
        decreases terms@.len() - j,
    {
        let t = &terms[j];
        let tt = tf_lookup(&idx.title_terms, t, d) as u64;
        let cc = tf_lookup(&idx.content_terms, t, d) as u64;
        let ts = sat_add_u64(boost_title(tt), cc);
        score = sat_add_u64(score, ts);
        proof {
            assert(tv.take(j as int + 1).drop_last() =~= tv.take(j as int));
            assert(tv.take(j as int + 1).last() == tv[j as int]);
        }
        j = j + 1;
    }
    proof {
        assert(tv.take(tv.len() as int) =~= tv);
    }
    score
}

/// Where [`insert_desc`] puts the new entry: at the first position whose
/// score is strictly smaller.
proof fn lemma_insert_desc_at(rs: Seq<CandV>, c: CandV, i: int)
    requires
        0 <= i <= rs.len(),
        forall|j: int| 0 <= j < i ==> rs[j].score >= c.score,
        i == rs.len() || rs[i].score < c.score,
    ensures
        insert_desc(rs, c) == rs.insert(i, c),
    decreases rs.len(),
{
    if rs.len() == 0 {
        assert(rs.insert(0, c) =~= seq![c]);
    } else if rs[0].score < c.score {
        assert(i == 0);
        assert(rs.insert(0, c) =~= seq![c] + rs);
    } else {
        assert(i >= 1);
        assert(forall|j: int| 0 <= j < i - 1 ==> rs.drop_first()[j] == rs[j + 1]);
        lemma_insert_desc_at(rs.drop_first(), c, i - 1);
        assert(rs.insert(i, c) =~= seq![rs[0]] + rs.drop_first().insert(i - 1, c));
    }
}

/// Inserting keeps exactly the old entries plus the new one.
pub proof fn lemma_insert_desc_membership(rs: Seq<CandV>, c: CandV)
    ensures
        insert_desc(rs, c).len() == rs.len() + 1,
        forall|x: CandV| #[trigger]
            insert_desc(rs, c).contains(x) <==> (rs.contains(x) || x == c),
    decreases rs.len(),
{
    if rs.len() == 0 {
        let r = insert_desc(rs, c);
        assert(r == seq![c]);
        assert(r[0] == c);
        assert forall|x: CandV| #[trigger] r.contains(x) <==> (rs.contains(x) || x == c) by {
            if r.contains(x) {
                let ix = choose|ix: int| 0 <= ix < r.len() && r[ix] == x;
                assert(x == c);
            }
        }
    } else if rs[0].score < c.score {
        let r = insert_desc(rs, c);
        assert(r == seq![c] + rs);
        assert forall|x: CandV| #[trigger] r.contains(x) <==> (rs.contains(x) || x == c) by {
            if r.contains(x) {
                let ix = choose|ix: int| 0 <= ix < r.len() && r[ix] == x;
                if ix > 0 {
                    assert(rs[ix - 1] == x);
                }
            }
            if rs.contains(x) {
                let ix = choose|ix: int| 0 <= ix < rs.len() && rs[ix] == x;
                assert(r[ix + 1] == x);
            }
            if x == c {
                assert(r[0] == x);
            }
        }
    } else {
        lemma_insert_desc_membership(rs.drop_first(), c);
        let r = insert_desc(rs, c);
        assert(r == seq![rs[0]] + insert_desc(rs.drop_first(), c));
        assert forall|x: CandV| #[trigger] r.contains(x) <==> (rs.contains(x) || x == c) by {
            if r.contains(x) {
                let ix = choose|ix: int| 0 <= ix < r.len() && r[ix] == x;
                if ix == 0 {
                    assert(rs[0] == x);
                } else {
                    assert(insert_desc(rs.drop_first(), c)[ix - 1] == x);
                    assert(insert_desc(rs.drop_first(), c).contains(x));
                    if rs.drop_first().contains(x) {
                        let iy = choose|iy: int|
                            0 <= iy < rs.drop_first().len() && rs.drop_first()[iy] == x;
                        assert(rs[iy + 1] == x);
                    }
                }
            }
            if rs.contains(x) {
                let ix = choose|ix: int| 0 <= ix < rs.len() && rs[ix] == x;
                if ix == 0 {
                    assert(r[0] == x);
                } else {
                    assert(rs.drop_first()[ix - 1] == x);
                    assert(rs.drop_first().contains(x));
                    assert(insert_desc(rs.drop_first(), c).contains(x));
                    let iy = choose|iy: int|
                        0 <= iy < insert_desc(rs.drop_first(), c).len() && insert_desc(
                            rs.drop_first(),
                            c,
                        )[iy] == x;
                    assert(r[iy + 1] == x);
                }
            }
            if x == c {
                assert(insert_desc(rs.drop_first(), c).contains(c));
                let iy = choose|iy: int|
                    0 <= iy < insert_desc(rs.drop_first(), c).len() && insert_desc(
                        rs.drop_first(),
                        c,
                    )[iy] == x;
                assert(r[iy + 1] == x);
            }
        }
    }
}

/// Ranking keeps exactly the candidates, no more and no fewer.
pub proof fn lemma_rank_membership(cs: Seq<CandV>)
    ensures
        rank_spec(cs).len() == cs.len(),
        forall|x: CandV| #[trigger] rank_spec(cs).contains(x) <==> cs.contains(x),
    decreases cs.len(),
{
    if cs.len() == 0 {
    } else {
        lemma_rank_membership(cs.drop_last());
        lemma_insert_desc_membership(rank_spec(cs.drop_last()), cs.last());
        assert forall|x: CandV| #[trigger] rank_spec(cs).contains(x) <==> cs.contains(x) by {
            if rank_spec(cs).contains(x) {
                if cs.drop_last().contains(x) {
                    let ix = choose|ix: int|
                        0 <= ix < cs.drop_last().len() && cs.drop_last()[ix] == x;
                    assert(cs[ix] == x);
                } else {
                    assert(x == cs.last());
                    assert(cs[cs.len() - 1] == x);
                }
            }
            if cs.contains(x) {
                let ix = choose|ix: int| 0 <= ix < cs.len() && cs[ix] == x;
                if ix < cs.len() - 1 {
                    assert(cs.drop_last()[ix] == x);
                    assert(cs.drop_last().contains(x));
                } else {
                    assert(x == cs.last());
                }
            }
        }
    }
}

/// Every candidate is a doc below `n`, carries its own score, that
/// score is positive, and candidates keep doc insertion order.
pub proof fn lemma_cands_bounds(iv: IndexV, terms: Seq<Seq<char>>, n: int)
    requires
        n >= 0,
    ensures
        forall|k: int|
            0 <= k < cands_upto(iv, terms, n).len() ==> {
                let c = #[trigger] cands_upto(iv, terms, n)[k];
                0 <= c.doc < n && c.score == score_terms(iv, terms, c.doc) && c.score >= 1
            },
        forall|k1: int, k2: int|
            0 <= k1 < k2 < cands_upto(iv, terms, n).len() ==> (#[trigger] cands_upto(
                iv,
                terms,
                n,
            )[k1]).doc < (#[trigger] cands_upto(iv, terms, n)[k2]).doc,
    decreases n,
{
    if n > 0 {
        lemma_cands_bounds(iv, terms, n - 1);
        let prev = cands_upto(iv, terms, n - 1);
        if score_terms(iv, terms, n - 1) > 0 {
            assert(forall|k: int|
                0 <= k < prev.len() ==> #[trigger] cands_upto(iv, terms, n)[k] == prev[k]);
            assert(cands_upto(iv, terms, n).last().doc == n - 1);
        }
    }
}

/// A doc with a positive score is a candidate, carrying exactly that
/// score.
pub proof fn lemma_cands_complete(iv: IndexV, terms: Seq<Seq<char>>, n: int, d: int)
    requires
        0 <= d < n,
        score_terms(iv, terms, d) > 0,
    ensures
        cands_upto(iv, terms, n).contains(CandV { doc: d, score: score_terms(iv, terms, d) }),
    decreases n,
{
    let c = CandV { doc: d, score: score_terms(iv, terms, d) };
    let prev = cands_upto(iv, terms, n - 1);
    if d == n - 1 {
        assert(cands_upto(iv, terms, n) == prev.push(c));
        assert(cands_upto(iv, terms, n)[prev.len() as int] == c);
    } else {
        lemma_cands_complete(iv, terms, n - 1, d);
        let ix = choose|ix: int| 0 <= ix < prev.len() && #[trigger] prev[ix] == c;
        assert(cands_upto(iv, terms, n)[ix] == c);
    }
}

/// There are never more candidates than docs.
pub proof fn lemma_cands_len(iv: IndexV, terms: Seq<Seq<char>>, n: int)
    requires
        n >= 0,
    ensures
        cands_upto(iv, terms, n).len() <= n,
    decreases n,
{
    if n > 0 {
        lemma_cands_len(iv, terms, n - 1);
    }
}

/// Scores never increase along the list.
pub open spec fn sorted_desc(rs: Seq<CandV>) -> bool {
    forall|i: int, j: int| 0 <= i <= j < rs.len() ==> (#[trigger] rs[i]).score >= (#[trigger] rs[j]).score
}

proof fn lemma_insert_desc_sorted(rs: Seq<CandV>, c: CandV)
    requires
        sorted_desc(rs),
    ensures
        sorted_desc(insert_desc(rs, c)),
    decreases rs.len(),
{
    let r = insert_desc(rs, c);
    if rs.len() == 0 {
    } else if rs[0].score < c.score {
        assert(r == seq![c] + rs);
        assert forall|i: int, j: int|
            0 <= i <= j < r.len() implies (#[trigger] r[i]).score >= (#[trigger] r[j]).score by {
            if i == 0 && j > 0 {
                assert(r[j] == rs[j - 1]);
                assert(rs[0].score >= rs[j - 1].score);
            }
            if i > 0 {
                assert(r[i] == rs[i - 1] && r[j] == rs[j - 1]);
            }
        }
    } else {
        lemma_insert_desc_sorted(rs.drop_first(), c);
        lemma_insert_desc_membership(rs.drop_first(), c);
        let inner = insert_desc(rs.drop_first(), c);
        assert(r == seq![rs[0]] + inner);
        assert forall|i: int, j: int|
            0 <= i <= j < r.len() implies (#[trigger] r[i]).score >= (#[trigger] r[j]).score by {
            if i == 0 && j > 0 {
                assert(r[j] == inner[j - 1]);
                assert(inner.contains(inner[j - 1]));
                if rs.drop_first().contains(inner[j - 1]) {
                    let ix = choose|ix: int|
                        0 <= ix < rs.drop_first().len() && rs.drop_first()[ix] == inner[j - 1];
                    assert(rs[ix + 1] == inner[j - 1]);
                    assert(rs[0].score >= rs[ix + 1].score);
                } else {
                    assert(inner[j - 1] == c);
                }
            }
            if i > 0 {
                assert(r[i] == inner[i - 1] && r[j] == inner[j - 1]);
            }
        }
    }
}

/// The ranked list never lets a score increase along it.
pub proof fn lemma_rank_sorted(cs: Seq<CandV>)
    ensures
        sorted_desc(rank_spec(cs)),
    decreases cs.len(),
{
    if cs.len() > 0 {
        lemma_rank_sorted(cs.drop_last());
        lemma_insert_desc_sorted(rank_spec(cs.drop_last()), cs.last());
    }
}

/// Scores never increase along the list, and equal scores keep their
/// docs in insertion order.
pub open spec fn ranked_order(rs: Seq<CandV>) -> bool {
    forall|i: int, j: int|
        0 <= i < j < rs.len() ==> ((#[trigger] rs[i]).score > (#[trigger] rs[j]).score || (
        rs[i].score == rs[j].score && rs[i].doc < rs[j].doc))
}

proof fn lemma_insert_desc_stable(rs: Seq<CandV>, c: CandV)
    requires
        ranked_order(rs),
        forall|k: int| 0 <= k < rs.len() ==> (#[trigger] rs[k]).doc < c.doc,
    ensures
        ranked_order(insert_desc(rs, c)),
    decreases rs.len(),
{
    let r = insert_desc(rs, c);
    if rs.len() == 0 {
    } else if rs[0].score < c.score {
        assert(r == seq![c] + rs);
        assert forall|i: int, j: int|
            0 <= i < j < r.len() implies ((#[trigger] r[i]).score > (#[trigger] r[j]).score || (
        r[i].score == r[j].score && r[i].doc < r[j].doc)) by {
            if i == 0 {
                assert(r[j] == rs[j - 1]);
                if j >= 2 {
                    assert(rs[0].score >= rs[j - 1].score || (rs[0].score == rs[j - 1].score));
                }
            } else {
                assert(r[i] == rs[i - 1] && r[j] == rs[j - 1]);
            }
        }
    } else {
        lemma_insert_desc_membership(rs.drop_first(), c);
        assert(forall|k: int|
            0 <= k < rs.drop_first().len() ==> #[trigger] rs.drop_first()[k] == rs[k + 1]);
        lemma_insert_desc_stable(rs.drop_first(), c);
        let inner = insert_desc(rs.drop_first(), c);
        assert(r == seq![rs[0]] + inner);
        assert forall|i: int, j: int|
            0 <= i < j < r.len() implies ((#[trigger] r[i]).score > (#[trigger] r[j]).score || (
        r[i].score == r[j].score && r[i].doc < r[j].doc)) by {
            if i == 0 {
                assert(r[j] == inner[j - 1]);
                assert(inner.contains(inner[j - 1]));
                if rs.drop_first().contains(inner[j - 1]) {
                    let ix = choose|ix: int|
                        0 <= ix < rs.drop_first().len() && rs.drop_first()[ix] == inner[j - 1];
                    assert(rs[ix + 1] == inner[j - 1]);
                } else {
                    assert(inner[j - 1] == c);
                }
            } else {
                assert(r[i] == inner[i - 1] && r[j] == inner[j - 1]);
            }
        }
    }
}

/// Ranking candidates whose docs are in insertion order gives a list
/// sorted by descending score with ties in insertion order.
pub proof fn lemma_rank_stable(cs: Seq<CandV>)
    requires
        forall|k1: int, k2: int|
            0 <= k1 < k2 < cs.len() ==> (#[trigger] cs[k1]).doc < (#[trigger] cs[k2]).doc,
    ensures
        ranked_order(rank_spec(cs)),
    decreases cs.len(),
{
    if cs.len() > 0 {
        assert(forall|k1: int, k2: int|
            0 <= k1 < k2 < cs.drop_last().len() ==> (#[trigger] cs.drop_last()[k1]).doc < (
            #[trigger] cs.drop_last()[k2]).doc) by {
            assert(forall|k: int|
                0 <= k < cs.drop_last().len() ==> #[trigger] cs.drop_last()[k] == cs[k]);
        }
        lemma_rank_stable(cs.drop_last());
        lemma_rank_membership(cs.drop_last());
        assert forall|k: int|
            0 <= k < rank_spec(cs.drop_last()).len() implies (#[trigger] rank_spec(
            cs.drop_last(),
        )[k]).doc < cs.last().doc by {
            assert(rank_spec(cs.drop_last()).contains(rank_spec(cs.drop_last())[k]));
            assert(cs.drop_last().contains(rank_spec(cs.drop_last())[k]));
            let ix = choose|ix: int|
                0 <= ix < cs.drop_last().len() && cs.drop_last()[ix] == rank_spec(
                    cs.drop_last(),
                )[k];
            assert(cs[ix] == rank_spec(cs.drop_last())[k]);
            if ix < cs.len() - 1 {
                assert(cs[ix].doc < cs[cs.len() - 1].doc);
            }
        }
        lemma_insert_desc_stable(rank_spec(cs.drop_last()), cs.last());
    }
}

/// Inserts a candidate into a vector ranked by descending score, after
/// all entries scoring at least as much.
fn insert_ranked(ranked: &mut Vec<Candidate>, c: Candidate)
    ensures
        cands_view(final(ranked)@) == insert_desc(cands_view(old(ranked)@), c@),
{
    let ghost rv = cands_view(old(ranked)@);
    let n = ranked.len();
    let mut i: usize = 0;
    while i < n && ranked[i].score >= c.score
        invariant
            n == ranked@.len(),
            rv == cands_view(ranked@),
            i <= n,
            forall|j: int| 0 <= j < i ==> rv[j].score >= c@.score,
        decreases n - i,
    {
        proof {
            assert(rv[i as int] == ranked@[i as int]@);
        }
        i = i + 1;
    }
    proof {
        if i < n {
            assert(rv[i as int] == ranked@[i as int]@);
            assert(rv[i as int].score < c@.score);
        }
        lemma_insert_desc_at(rv, c@, i as int);
    }
    ranked.insert(i, c);
    proof {
        assert(cands_view(ranked@) =~= rv.insert(i as int, c@));
    }
}

impl SearchIndex {
    /// Answers a free-text query: the query is lower-cased, split into
    /// whitespace-delimited words, each word is tokenized exactly as at
    /// index time, and every doc matching at least one term is scored
    /// (title frequency counted [`TITLE_BOOST`] times plus content
    /// frequency, per term, capped sums), ranked by descending score with
    /// ties in insertion order, cut to `limit` (0 falls back to 20), and
    /// hydrated. An empty or all-space query yields no terms and an empty
    /// result; no query text is an error.
    pub fn search(&self, query: &str, limit: usize) -> (results: Vec<SearchResult>)
        ensures
            results_view(results@) == search_spec(self@, lower_of(query@), limit as int),
    {
        let ghost iv = self@;
        let ghost fq = lower_of(query@);
        let folded = fold_case(query);
        let words = split_words(folded.as_str());
        let terms = terms_of_query(&words);
        let ghost termsv = query_terms(words_of(fq));
        proof {
            assert(strs_view(terms@) == termsv);
        }
        let n = self.docs.len();
        let mut cands: Vec<Candidate> = Vec::new();
        let mut d: usize = 0;
        proof {
            assert(cands_view(cands@) =~= cands_upto(iv, termsv, 0));
        }
        while d < n
            invariant
                iv == self@,
                termsv == strs_view(terms@),
                n == self.docs@.len(),
                n == iv.docs.len(),
                d <= n,
                cands_view(cands@) == cands_upto(iv, termsv, d as int),
            decreases n - d,
        {
            let sc = score_doc(self, &terms, d);
            if sc > 0 {
                let ghost old_cands = cands@;
                cands.push(Candidate { doc: d, score: sc });
                proof {
                    assert(cands_view(cands@) =~= cands_view(old_cands).push(
                        CandV { doc: d as int, score: sc as int },
                    ));
                }
            }
            d = d + 1;
        }
        let ghost cv = cands_upto(iv, termsv, n as int);
        let mut ranked: Vec<Candidate> = Vec::new();
        let mut j: usize = 0;
        proof {
            assert(cv.take(0) =~= Seq::<CandV>::empty());
            assert(cands_view(ranked@) =~= rank_spec(cv.take(0)));
        }
        while j < cands.len()
            invariant
                cv == cands_view(cands@),
                j <= cands@.len(),
                cands_view(ranked@) == rank_spec(cv.take(j as int)),
            decreases cands@.len() - j,
        {
            let c = cands[j];
            proof {
                assert(c@ == cv[j as int]);
            }
            insert_ranked(&mut ranked, c);
            proof {
                assert(cv.take(j as int + 1).drop_last() =~= cv.take(j as int));
                assert(cv.take(j as int + 1).last() == cv[j as int]);
            }
            j = j + 1;
        }
        proof {
            assert(cv.take(cv.len() as int) =~= cv);
        }
        let ghost rankedv = rank_spec(cv);
        let lim = if limit == 0 {
            crate::default_limit()
        } else {
            limit
        };
        let mut results: Vec<SearchResult> = Vec::new();
        let mut k: usize = 0;
        proof {
            assert(results_view(results@) =~= hydrate(iv, rankedv.take(0)));
        }
        while k < ranked.len() && k < lim
            invariant
                iv == self@,
                rankedv == cands_view(ranked@),
                rankedv == rank_spec(cv),
                cv == cands_upto(iv, termsv, iv.docs.len() as int),
                k <= ranked@.len(),
                k <= lim,
                lim as int == effective_limit(limit as int),
                results_view(results@) == hydrate(iv, rankedv.take(k as int)),
            decreases ranked@.len() - k,
        {
            let c = ranked[k];
            proof {
                assert(c@ == rankedv[k as int]);
                assert(rankedv.contains(rankedv[k as int]));
                lemma_rank_membership(cv);
                lemma_cands_bounds(iv, termsv, iv.docs.len() as int);
                assert(cv.contains(c@));
                let ix = choose|ix: int| 0 <= ix < cv.len() && cv[ix] == c@;
                assert(0 <= c@.doc < iv.docs.len());
                assert(iv.docs[c@.doc] == self.docs@[c@.doc]@);
            }
            let rec = &self.docs[c.doc];
            let snippet = excerpt(rec.content.as_str(), SNIPPET_MAX);
            let ghost old_results = results@;
            results.push(
                SearchResult {
                    conversation_id: rec.id.clone(),
                    title: rec.title.clone(),
                    date: rec.date.clone(),
                    score: c.score,
                    snippet,
                },
            );
            proof {
                assert(rankedv.take(k as int + 1).drop_last() =~= rankedv.take(k as int));
                assert(rankedv.take(k as int + 1)[k as int] == rankedv[k as int]);
                assert(results_view(results@) =~= results_view(old_results).push(
                    results@.last()@,
                ));
                assert(results@.last()@ =~= result_of(iv, rankedv[k as int]));
                assert(hydrate(iv, rankedv.take(k as int + 1)) =~= hydrate(
                    iv,
                    rankedv.take(k as int),
                ).push(result_of(iv, rankedv[k as int])));
            }
            k = k + 1;
        }
        proof {
            let keep = if rankedv.len() <= effective_limit(limit as int) {
                rankedv.len() as int
            } else {
                effective_limit(limit as int)
            };
            assert(k as int == keep);
            assert(results_view(results@) =~= search_spec(iv, fq, limit as int));
        }
        results
    }
}

/// The query engine over a committed index snapshot. Querying is
/// read-only: any number of callers may search the same engine.
#[derive(Debug)]
pub struct SearchEngine {
    pub index: SearchIndex,
}

impl SearchEngine {
    /// Wraps a committed index snapshot for querying.
    pub fn new(index: SearchIndex) -> (engine: SearchEngine)
        ensures
            engine.index@ == index@,
    {
        SearchEngine { index }
    }

    /// Answers a free-text query over the wrapped snapshot; see
    /// [`SearchIndex::search`].
    pub fn search(&self, query: &str, limit: usize) -> (results: Vec<SearchResult>)
        ensures
            results_view(results@) == search_spec(self.index@, lower_of(query@), limit as int),
    {
        self.index.search(query, limit)
    }
}

} // verus!
