//! The engine's guarantees, stated and proved over the mathematical
//! models that the executable functions are pinned to: determinism of
//! rebuild-and-requery, substring completeness, case-insensitivity, the
//! title boost, the snippet bound, and that a rebuild reflects deletions.

use vstd::prelude::*;

use crate::index::{build_spec, lemma_build_tf, IndexV, RecordV};
use crate::search::{
    cands_upto, effective_limit, hydrate, lemma_cands_bounds, lemma_cands_complete,
    lemma_cands_len, lemma_rank_membership, lemma_rank_sorted, lemma_rank_stable, query_terms,
    rank_spec, ranked_order, result_of, sat_add, score_terms, search_spec, term_score, words_of,
    CandV, SNIPPET_MAX,
};
use crate::text::{ellipsis, excerpt_spec, is_space_char, lower_of};
use crate::tokenize::{
    count_from, count_occ, lemma_tokens_complete, lemma_tokens_len, tokens_spec, TokenV, MAX_GRAM,
    MIN_GRAM,
};

verus! {

/// Every query term is an n-gram of admissible length.
proof fn lemma_query_terms_len(ws: Seq<Seq<char>>)
    ensures
        forall|ix: int|
            0 <= ix < query_terms(ws).len() ==> MIN_GRAM <= (#[trigger] query_terms(
                ws,
            )[ix]).len() <= MAX_GRAM,
    decreases ws.len(),
{
    if ws.len() > 0 {
        lemma_query_terms_len(ws.drop_first());
        lemma_tokens_len(ws[0], 0);
        let head = tokens_spec(ws[0]).map_values(|t: TokenV| t.term);
        assert(query_terms(ws) == head + query_terms(ws.drop_first()));
        assert(forall|ix: int|
            0 <= ix < head.len() ==> #[trigger] query_terms(ws)[ix] == head[ix]);
        assert(forall|ix: int|
            0 <= ix < head.len() ==> head[ix] == tokens_spec(ws[0])[ix].term);
        assert(forall|ix: int|
            head.len() <= ix < query_terms(ws).len() ==> #[trigger] query_terms(ws)[ix]
                == query_terms(ws.drop_first())[ix - head.len()]);
    }
}

/// A non-empty text without whitespace is one single word.
proof fn lemma_single_word(s: Seq<char>)
    requires
        s.len() > 0,
        forall|i: int| 0 <= i < s.len() ==> !is_space_char(s[i]),
    ensures
        words_of(s) == seq![s],
{
    crate::search::lemma_word_end_pin(s, 0, s.len() as int);
    assert(s.subrange(0, s.len() as int) =~= s);
    assert(crate::search::words_from(s, s.len() as int) =~= Seq::<Seq<char>>::empty());
    assert(words_of(s) == seq![s.subrange(0, s.len() as int)] + crate::search::words_from(
        s,
        s.len() as int,
    ));
    assert(words_of(s) =~~= seq![s]);
}

/// A term occurring at offset `at` is counted at least once from any
/// offset at or before `at`.
proof fn lemma_count_from_at(s: Seq<char>, t: Seq<char>, p: int, at: int)
    requires
        0 <= p <= at,
        t.len() >= 1,
        at + t.len() <= s.len(),
        s.subrange(at, at + t.len()) == t,
    ensures
        count_from(s, t, p) >= 1,
    decreases at - p,
{
    if p == at {
    } else {
        lemma_count_from_at(s, t, p + 1, at);
    }
}

/// A capped sum of non-negative contributions is non-negative, stays at
/// or below the cap, and is at least each single contribution.
proof fn lemma_score_terms_ge(iv: IndexV, terms: Seq<Seq<char>>, d: int)
    requires
        forall|ix: int| 0 <= ix < terms.len() ==> term_score(iv, #[trigger] terms[ix], d) >= 0,
    ensures
        0 <= score_terms(iv, terms, d) <= u64::MAX,
        forall|ix: int|
            0 <= ix < terms.len() ==> score_terms(iv, terms, d) >= term_score(
                iv,
                #[trigger] terms[ix],
                d,
            ),
    decreases terms.len(),
{
    if terms.len() > 0 {
        assert(forall|ix: int|
            0 <= ix < terms.drop_last().len() ==> #[trigger] terms.drop_last()[ix] == terms[ix]);
        lemma_score_terms_ge(iv, terms.drop_last(), d);
        assert(terms.last() == terms[terms.len() - 1]);
        let pre = score_terms(iv, terms.drop_last(), d);
        let ls = term_score(iv, terms.last(), d);
        assert(ls >= 0);
        assert(score_terms(iv, terms, d) == sat_add(pre, ls));
        assert(sat_add(pre, ls) >= pre);
        assert(sat_add(pre, ls) >= ls);
        assert forall|ix: int|
            0 <= ix < terms.len() implies score_terms(iv, terms, d) >= term_score(
            iv,
            #[trigger] terms[ix],
            d,
        ) by {
            if ix < terms.len() - 1 {
                assert(terms.drop_last()[ix] == terms[ix]);
                assert(pre >= term_score(iv, terms.drop_last()[ix], d));
            } else {
                assert(terms[ix] == terms.last());
            }
        }
    }
}

/// Pointwise dominance of term contributions gives dominance of the
/// capped totals; with one strict contribution and an uncapped smaller
/// total, strictly so.
proof fn lemma_score_pointwise(
    iv1: IndexV,
    iv2: IndexV,
    terms: Seq<Seq<char>>,
    d1: int,
    d2: int,
)
    requires
        forall|ix: int|
            0 <= ix < terms.len() ==> term_score(iv1, #[trigger] terms[ix], d1) >= term_score(
                iv2,
                terms[ix],
                d2,
            ) >= 0,
    ensures
        score_terms(iv1, terms, d1) >= score_terms(iv2, terms, d2) >= 0,
        score_terms(iv1, terms, d1) <= u64::MAX,
        forall|ix: int|
            0 <= ix < terms.len() && term_score(iv1, #[trigger] terms[ix], d1) > term_score(
                iv2,
                terms[ix],
                d2,
            ) && score_terms(iv2, terms, d2) < u64::MAX ==> score_terms(iv1, terms, d1)
                > score_terms(iv2, terms, d2),
    decreases terms.len(),
{
    if terms.len() > 0 {
        assert(forall|ix: int|
            0 <= ix < terms.drop_last().len() ==> #[trigger] terms.drop_last()[ix] == terms[ix]);
        lemma_score_pointwise(iv1, iv2, terms.drop_last(), d1, d2);
        assert(terms.last() == terms[terms.len() - 1]);
        let a_pre = score_terms(iv1, terms.drop_last(), d1);
        let b_pre = score_terms(iv2, terms.drop_last(), d2);
        let a_l = term_score(iv1, terms.last(), d1);
        let b_l = term_score(iv2, terms.last(), d2);
        assert(a_l >= b_l >= 0);
        assert(score_terms(iv1, terms, d1) == sat_add(a_pre, a_l));
        assert(score_terms(iv2, terms, d2) == sat_add(b_pre, b_l));
        assert forall|ix: int|
            0 <= ix < terms.len() && term_score(iv1, #[trigger] terms[ix], d1) > term_score(
            iv2,
            terms[ix],
            d2,
        ) && score_terms(iv2, terms, d2) < u64::MAX implies score_terms(iv1, terms, d1)
            > score_terms(iv2, terms, d2) by {
            // below the cap, the smaller total is the plain sum, and its
            // prefix stays below the cap too
            assert(sat_add(b_pre, b_l) < u64::MAX);
            assert(b_pre + b_l < u64::MAX);
            if ix < terms.len() - 1 {
                assert(terms.drop_last()[ix] == terms[ix]);
                assert(a_pre > b_pre);
            } else {
                assert(terms[ix] == terms.last());
                assert(a_l > b_l);
            }
            assert(a_pre + a_l > b_pre + b_l);
        }
    }
}

/// With no query terms nothing scores, so nothing matches.
proof fn lemma_no_cands(iv: IndexV, terms: Seq<Seq<char>>, n: int)
    requires
        n >= 0,
        terms.len() == 0,
    ensures
        cands_upto(iv, terms, n).len() == 0,
    decreases n,
{
    if n > 0 {
        lemma_no_cands(iv, terms, n - 1);
    }
}

/// Rebuilding from identical input and re-querying yields identical
/// ranked results: building an index and answering a query are functions
/// of the records and the folded query alone, with no hidden state.
pub proof fn theorem_idempotent_rebuild(
    r1: Seq<RecordV>,
    r2: Seq<RecordV>,
    fq: Seq<char>,
    limit: int,
)
    requires
        r1 == r2,
    ensures
        build_spec(r1) == build_spec(r2),
        search_spec(build_spec(r1), fq, limit) == search_spec(build_spec(r2), fq, limit),
{
}

/// Case-insensitivity: two queries whose lower-cased forms agree are
/// answered identically, since a search depends on the query only
/// through its folded form. Any case permutation of a matching term is
/// such a query.
pub proof fn theorem_case_insensitive(iv: IndexV, q1: Seq<char>, q2: Seq<char>, limit: int)
    requires
        lower_of(q1) == lower_of(q2),
    ensures
        search_spec(iv, lower_of(q1), limit) == search_spec(iv, lower_of(q2), limit),
{
}

/// An empty query has no terms and matches nothing: the result list is
/// empty, and no error arises.
pub proof fn theorem_empty_query(iv: IndexV, fq: Seq<char>, limit: int)
    requires
        fq.len() == 0,
    ensures
        search_spec(iv, fq, limit).len() == 0,
{
    assert(words_of(fq) =~= Seq::<Seq<char>>::empty());
    assert(query_terms(words_of(fq)) =~= Seq::<Seq<char>>::empty());
    lemma_no_cands(iv, query_terms(words_of(fq)), iv.docs.len() as int);
    let ranked = rank_spec(cands_upto(iv, query_terms(words_of(fq)), iv.docs.len() as int));
    lemma_rank_membership(cands_upto(iv, query_terms(words_of(fq)), iv.docs.len() as int));
    assert(ranked.take(0) =~= Seq::<CandV>::empty());
}

/// Results come ranked: scores never increase along the result list,
/// and the underlying ranked candidate list breaks score ties by the
/// conversations' insertion order, deterministically.
pub proof fn theorem_results_ranked(iv: IndexV, fq: Seq<char>, limit: int)
    ensures
        forall|i: int, j: int|
            0 <= i < j < search_spec(iv, fq, limit).len() ==> (#[trigger] search_spec(
                iv,
                fq,
                limit,
            )[i]).score >= (#[trigger] search_spec(iv, fq, limit)[j]).score,
        ranked_order(rank_spec(cands_upto(iv, query_terms(words_of(fq)), iv.docs.len() as int))),
{
    let terms = query_terms(words_of(fq));
    let n = iv.docs.len() as int;
    let cands = cands_upto(iv, terms, n);
    let ranked = rank_spec(cands);
    lemma_cands_bounds(iv, terms, n);
    lemma_rank_stable(cands);
    let keep = if ranked.len() <= effective_limit(limit) {
        ranked.len() as int
    } else {
        effective_limit(limit)
    };
    assert forall|i: int, j: int|
        0 <= i < j < search_spec(iv, fq, limit).len() implies (#[trigger] search_spec(
        iv,
        fq,
        limit,
    )[i]).score >= (#[trigger] search_spec(iv, fq, limit)[j]).score by {
        assert(search_spec(iv, fq, limit) == hydrate(iv, ranked.take(keep)));
        assert(search_spec(iv, fq, limit)[i] == result_of(iv, ranked.take(keep)[i]));
        assert(search_spec(iv, fq, limit)[j] == result_of(iv, ranked.take(keep)[j]));
        assert(ranked.take(keep)[i] == ranked[i]);
        assert(ranked.take(keep)[j] == ranked[j]);
        assert(ranked[i].score > ranked[j].score || (ranked[i].score == ranked[j].score
            && ranked[i].doc < ranked[j].doc));
    }
}

/// Every search result hydrates an actual doc of the index: there is a
/// doc whose stored fields, content excerpt and positive query score the
/// result carries.
pub proof fn lemma_results_sound(iv: IndexV, fq: Seq<char>, limit: int)
    ensures
        forall|j: int|
            0 <= j < search_spec(iv, fq, limit).len() ==> exists|d: int|
                0 <= d < iv.docs.len() && #[trigger] search_spec(iv, fq, limit)[j] == result_of(
                    iv,
                    CandV { doc: d, score: score_terms(iv, query_terms(words_of(fq)), d) },
                ) && score_terms(iv, query_terms(words_of(fq)), d) >= 1,
{
    let terms = query_terms(words_of(fq));
    let n = iv.docs.len() as int;
    let cands = cands_upto(iv, terms, n);
    let ranked = rank_spec(cands);
    lemma_rank_membership(cands);
    lemma_cands_bounds(iv, terms, n);
    let keep = if ranked.len() <= effective_limit(limit) {
        ranked.len() as int
    } else {
        effective_limit(limit)
    };
    assert forall|j: int| 0 <= j < search_spec(iv, fq, limit).len() implies exists|d: int|
        0 <= d < iv.docs.len() && #[trigger] search_spec(iv, fq, limit)[j] == result_of(
            iv,
            CandV { doc: d, score: score_terms(iv, terms, d) },
        ) && score_terms(iv, terms, d) >= 1 by {
        assert(search_spec(iv, fq, limit) == hydrate(iv, ranked.take(keep)));
        assert(search_spec(iv, fq, limit)[j] == result_of(iv, ranked.take(keep)[j]));
        assert(ranked.take(keep)[j] == ranked[j]);
        assert(ranked.contains(ranked[j]));
        assert(cands.contains(ranked[j]));
        let ix = choose|ix: int| 0 <= ix < cands.len() && cands[ix] == ranked[j];
        let c = cands[ix];
        assert(0 <= c.doc < n && c.score == score_terms(iv, terms, c.doc) && c.score >= 1);
        assert(c == CandV { doc: c.doc, score: score_terms(iv, terms, c.doc) });
        assert(search_spec(iv, fq, limit)[j] == result_of(
            iv,
            CandV { doc: c.doc, score: score_terms(iv, terms, c.doc) },
        ));
    }
}

/// Snippet bound: every result's snippet has at most [`SNIPPET_MAX`] code
/// points, plus the three-character ellipsis exactly when the content was
/// cut; counting is in code points throughout, so no character is ever
/// split.
pub proof fn theorem_snippet_bound(iv: IndexV, fq: Seq<char>, limit: int)
    ensures
        forall|j: int|
            0 <= j < search_spec(iv, fq, limit).len() ==> {
                let sn = (#[trigger] search_spec(iv, fq, limit)[j]).snippet;
                &&& sn.len() <= SNIPPET_MAX + 3
                &&& (sn.len() <= SNIPPET_MAX || sn.skip(SNIPPET_MAX as int) == ellipsis())
            },
{
    lemma_results_sound(iv, fq, limit);
    assert forall|j: int| 0 <= j < search_spec(iv, fq, limit).len() implies {
        let sn = (#[trigger] search_spec(iv, fq, limit)[j]).snippet;
        &&& sn.len() <= SNIPPET_MAX + 3
        &&& (sn.len() <= SNIPPET_MAX || sn.skip(SNIPPET_MAX as int) == ellipsis())
    } by {
        let d = choose|d: int|
            0 <= d < iv.docs.len() && #[trigger] search_spec(iv, fq, limit)[j] == result_of(
                iv,
                CandV { doc: d, score: score_terms(iv, query_terms(words_of(fq)), d) },
            ) && score_terms(iv, query_terms(words_of(fq)), d) >= 1;
        let content = iv.docs[d].content;
        let sn = search_spec(iv, fq, limit)[j].snippet;
        assert(sn == excerpt_spec(content, SNIPPET_MAX as int));
        if content.len() > SNIPPET_MAX {
            assert(sn == content.subrange(0, SNIPPET_MAX as int) + ellipsis());
            assert(sn.len() == SNIPPET_MAX + 3);
            assert(sn.skip(SNIPPET_MAX as int) =~= ellipsis());
        }
    }
}

/// Substring completeness: a conversation whose lower-cased content
/// contains a contiguous whitespace-free run of [`MIN_GRAM`] to
/// [`MAX_GRAM`] code points is among the results of a query that folds to
/// exactly that run, whenever the limit admits every match.
pub proof fn theorem_substring_complete(
    records: Seq<RecordV>,
    fq: Seq<char>,
    limit: int,
    d: int,
    start: int,
    k: int,
)
    requires
        0 <= d < records.len(),
        MIN_GRAM <= k <= MAX_GRAM,
        0 <= start,
        start + k <= lower_of(records[d].content).len(),
        fq == lower_of(records[d].content).subrange(start, start + k),
        forall|i: int| 0 <= i < fq.len() ==> !is_space_char(fq[i]),
        effective_limit(limit) >= records.len(),
    ensures
        exists|j: int|
            0 <= j < search_spec(build_spec(records), fq, limit).len() && (
            #[trigger] search_spec(build_spec(records), fq, limit)[j]).conversation_id
                == records[d].id,
{
    let iv = build_spec(records);
    let n = records.len() as int;
    lemma_single_word(fq);
    let terms = query_terms(words_of(fq));
    assert(seq![fq].drop_first() =~= Seq::<Seq<char>>::empty());
    assert(query_terms(Seq::<Seq<char>>::empty()) =~= Seq::<Seq<char>>::empty());
    let head = tokens_spec(fq).map_values(|t: TokenV| t.term);
    assert(terms =~= head);
    // the whole run is itself one of the query's tokens
    assert(fq.subrange(0, k) =~= fq);
    lemma_tokens_complete(fq, 0, k);
    let tok = TokenV { term: fq, start: 0 };
    let tix = choose|tix: int| 0 <= tix < tokens_spec(fq).len() && #[trigger] tokens_spec(fq)[tix]
        == tok;
    assert(head[tix] == fq);
    assert(terms.contains(fq)) by {
        assert(terms[tix] == fq);
    }
    // every term is admissible, so its frequencies are occurrence counts
    lemma_query_terms_len(words_of(fq));
    assert forall|ix: int|
        0 <= ix < terms.len() implies term_score(iv, #[trigger] terms[ix], d) >= 0 by {
        lemma_build_tf(records, d, terms[ix]);
    }
    // the doc's content carries the run, so the run's term scores
    lemma_build_tf(records, d, fq);
    lemma_count_from_at(lower_of(records[d].content), fq, 0, start);
    assert(term_score(iv, fq, d) >= 1);
    lemma_score_terms_ge(iv, terms, d);
    assert(score_terms(iv, terms, d) >= term_score(iv, terms[tix], d));
    assert(score_terms(iv, terms, d) >= 1);
    // a positive score makes the doc a candidate, and ranking keeps it
    lemma_cands_complete(iv, terms, n, d);
    let cands = cands_upto(iv, terms, n);
    let ranked = rank_spec(cands);
    lemma_rank_membership(cands);
    lemma_cands_len(iv, terms, n);
    let c = CandV { doc: d, score: score_terms(iv, terms, d) };
    assert(ranked.contains(c));
    let j = choose|j: int| 0 <= j < ranked.len() && ranked[j] == c;
    let keep = if ranked.len() <= effective_limit(limit) {
        ranked.len() as int
    } else {
        effective_limit(limit)
    };
    assert(keep == ranked.len());
    assert(ranked.take(keep) =~= ranked);
    assert(search_spec(iv, fq, limit) == hydrate(iv, ranked));
    assert(search_spec(iv, fq, limit)[j] == result_of(iv, c));
    assert(search_spec(iv, fq, limit)[j].conversation_id == records[d].id);
}

/// Title boost: when every query term occurs for conversation `a` only in
/// its title and for conversation `b` only in its content, with the same
/// frequency on both sides, and at least one term occurs at all, `a`
/// ranks strictly above `b` — provided the limit admits every match and
/// `b`'s score does not reach the cap.
pub proof fn theorem_title_boost(
    records: Seq<RecordV>,
    fq: Seq<char>,
    limit: int,
    a: int,
    b: int,
)
    requires
        0 <= a < records.len(),
        0 <= b < records.len(),
        a != b,
        effective_limit(limit) >= records.len(),
        forall|ix: int|
            0 <= ix < query_terms(words_of(fq)).len() ==> {
                let t = #[trigger] query_terms(words_of(fq))[ix];
                &&& count_occ(lower_of(records[a].title), t) == count_occ(
                    lower_of(records[b].content),
                    t,
                )
                &&& count_occ(lower_of(records[a].content), t) == 0
                &&& count_occ(lower_of(records[b].title), t) == 0
            },
        exists|ix: int|
            0 <= ix < query_terms(words_of(fq)).len() && count_occ(
                lower_of(records[b].content),
                #[trigger] query_terms(words_of(fq))[ix],
            ) >= 1,
        score_terms(build_spec(records), query_terms(words_of(fq)), b) < u64::MAX,
    ensures
        exists|i: int, j: int|
            0 <= i < j < search_spec(build_spec(records), fq, limit).len() && (
            #[trigger] search_spec(build_spec(records), fq, limit)[i]).conversation_id
                == records[a].id && (#[trigger] search_spec(build_spec(records), fq, limit)[
                j
            ]).conversation_id == records[b].id,
{
    let iv = build_spec(records);
    let n = records.len() as int;
    let terms = query_terms(words_of(fq));
    lemma_query_terms_len(words_of(fq));
    // per-term contributions: 2f (capped) for `a`'s title, f (capped) for
    // `b`'s content
    assert forall|ix: int|
        0 <= ix < terms.len() implies term_score(iv, #[trigger] terms[ix], a) >= term_score(
        iv,
        terms[ix],
        b,
    ) >= 0 by {
        lemma_build_tf(records, a, terms[ix]);
        lemma_build_tf(records, b, terms[ix]);
    }
    lemma_score_pointwise(iv, iv, terms, a, b);
    lemma_score_terms_ge(iv, terms, b);
    let wix = choose|ix: int|
        0 <= ix < terms.len() && count_occ(lower_of(records[b].content), #[trigger] terms[ix])
            >= 1;
    lemma_build_tf(records, a, terms[wix]);
    lemma_build_tf(records, b, terms[wix]);
    let f = count_occ(lower_of(records[b].content), terms[wix]) as int;
    assert(term_score(iv, terms[wix], b) >= 1);
    assert(score_terms(iv, terms, b) >= term_score(iv, terms[wix], b));
    assert(term_score(iv, terms[wix], b) < u64::MAX);
    assert(f < u64::MAX);
    assert(term_score(iv, terms[wix], a) > term_score(iv, terms[wix], b));
    assert(score_terms(iv, terms, a) > score_terms(iv, terms, b));
    let sa = score_terms(iv, terms, a);
    let sb = score_terms(iv, terms, b);
    assert(sb >= 1);
    // both are candidates; ranking keeps them and orders them by score
    lemma_cands_complete(iv, terms, n, a);
    lemma_cands_complete(iv, terms, n, b);
    let cands = cands_upto(iv, terms, n);
    let ranked = rank_spec(cands);
    lemma_rank_membership(cands);
    lemma_rank_sorted(cands);
    lemma_cands_len(iv, terms, n);
    let ca = CandV { doc: a, score: sa };
    let cb = CandV { doc: b, score: sb };
    assert(ranked.contains(ca));
    assert(ranked.contains(cb));
    let i = choose|i: int| 0 <= i < ranked.len() && ranked[i] == ca;
    let j = choose|j: int| 0 <= j < ranked.len() && ranked[j] == cb;
    assert(i != j);
    assert(i < j) by {
        if i > j {
            assert(ranked[j].score >= ranked[i].score);
        }
    }
    let keep = if ranked.len() <= effective_limit(limit) {
        ranked.len() as int
    } else {
        effective_limit(limit)
    };
    assert(keep == ranked.len());
    assert(ranked.take(keep) =~= ranked);
    assert(search_spec(iv, fq, limit) == hydrate(iv, ranked));
    assert(search_spec(iv, fq, limit)[i] == result_of(iv, ca));
    assert(search_spec(iv, fq, limit)[j] == result_of(iv, cb));
    assert(search_spec(iv, fq, limit)[i].conversation_id == records[a].id);
    assert(search_spec(iv, fq, limit)[j].conversation_id == records[b].id);
}

/// Equal records get equal scores, whatever index each lives in: a doc's
/// score depends only on its own folded title and content.
proof fn lemma_score_own_doc(
    r1: Seq<RecordV>,
    r2: Seq<RecordV>,
    terms: Seq<Seq<char>>,
    d1: int,
    d2: int,
)
    requires
        0 <= d1 < r1.len(),
        0 <= d2 < r2.len(),
        r1[d1] == r2[d2],
        forall|ix: int|
            0 <= ix < terms.len() ==> MIN_GRAM <= (#[trigger] terms[ix]).len() <= MAX_GRAM,
    ensures
        score_terms(build_spec(r1), terms, d1) == score_terms(build_spec(r2), terms, d2),
    decreases terms.len(),
{
    if terms.len() > 0 {
        assert(forall|ix: int|
            0 <= ix < terms.drop_last().len() ==> #[trigger] terms.drop_last()[ix] == terms[ix]);
        lemma_score_own_doc(r1, r2, terms.drop_last(), d1, d2);
        assert(terms.last() == terms[terms.len() - 1]);
        lemma_build_tf(r1, d1, terms.last());
        lemma_build_tf(r2, d2, terms.last());
    }
}

/// Rebuild reflects deletions: after one conversation is removed from the
/// input and the index rebuilt, no result carries the removed id (ids
/// being unique within the build), and every remaining conversation keeps
/// exactly the score it had before.
pub proof fn theorem_rebuild_reflects_deletion(
    records: Seq<RecordV>,
    rem: int,
    fq: Seq<char>,
    limit: int,
)
    requires
        0 <= rem < records.len(),
        forall|i: int, j: int|
            0 <= i < j < records.len() ==> (#[trigger] records[i]).id != (
            #[trigger] records[j]).id,
    ensures
        forall|j: int|
            0 <= j < search_spec(build_spec(records.remove(rem)), fq, limit).len() ==> (
            #[trigger] search_spec(build_spec(records.remove(rem)), fq, limit)[
                j
            ]).conversation_id != records[rem].id,
        forall|d: int|
            0 <= d < records.remove(rem).len() ==> #[trigger] score_terms(
                build_spec(records.remove(rem)),
                query_terms(words_of(fq)),
                d,
            ) == score_terms(
                build_spec(records),
                query_terms(words_of(fq)),
                if d < rem {
                    d
                } else {
                    d + 1
                },
            ),
{
    let r2 = records.remove(rem);
    let iv2 = build_spec(r2);
    let terms = query_terms(words_of(fq));
    lemma_query_terms_len(words_of(fq));
    assert(forall|d: int| 0 <= d < rem ==> r2[d] == records[d]);
    assert(forall|d: int| rem <= d < r2.len() ==> r2[d] == records[d + 1]);
    assert forall|d: int| 0 <= d < r2.len() implies #[trigger] score_terms(iv2, terms, d)
        == score_terms(
        build_spec(records),
        terms,
        if d < rem {
            d
        } else {
            d + 1
        },
    ) by {
        if d < rem {
            lemma_score_own_doc(r2, records, terms, d, d);
        } else {
            lemma_score_own_doc(r2, records, terms, d, d + 1);
        }
    }
    lemma_results_sound(iv2, fq, limit);
    assert forall|j: int|
        0 <= j < search_spec(iv2, fq, limit).len() implies (#[trigger] search_spec(
        iv2,
        fq,
        limit,
    )[j]).conversation_id != records[rem].id by {
        let d = choose|d: int|
            0 <= d < iv2.docs.len() && #[trigger] search_spec(iv2, fq, limit)[j] == result_of(
                iv2,
                CandV { doc: d, score: score_terms(iv2, terms, d) },
            ) && score_terms(iv2, terms, d) >= 1;
        assert(search_spec(iv2, fq, limit)[j].conversation_id == r2[d].id);
        if d < rem {
            assert(r2[d].id == records[d].id);
            assert(records[d].id != records[rem].id);
        } else {
            assert(r2[d].id == records[d + 1].id);
            assert(records[rem].id != records[d + 1].id);
        }
    }
}

} // verus!
