//! The inverted index: for each of the two indexed fields (title and
//! content) a term dictionary maps each n-gram to its postings, and a
//! stored-fields table keeps each conversation's id, title, date and
//! content for result hydration.
//!
//! [`SearchIndex::build`] consumes a batch of records in one pass; the
//! result equals the mathematical [`build_spec`]. [`lemma_build_tf`]
//! shows that the recorded term frequency of any admissible term is
//! exactly its number of occurrences in the folded field text, and
//! [`lemma_build_positions`] that the recorded positions are exactly the
//! ascending offsets of those occurrences.

use vstd::prelude::*;

use crate::text::{fold_case, lower_of};
use crate::tokenize::{
    count_occ, count_term, lemma_count_term_concat, lemma_token_count, tokenize, tokens_spec,
    tokens_view, Token, TokenV, MAX_GRAM, MIN_GRAM,
};

verus! {

/// One conversation, flattened and ready for indexing: the stored-fields
/// row of the index.
#[derive(Debug)]
pub struct ConversationRecord {
    pub id: String,
    pub title: String,
    pub date: String,
    pub content: String,
}

/// Mathematical form of a record.
#[verifier::ext_equal]
pub struct RecordV {
    pub id: Seq<char>,
    pub title: Seq<char>,
    pub date: Seq<char>,
    pub content: Seq<char>,
}

impl View for ConversationRecord {
    type V = RecordV;

    open spec fn view(&self) -> RecordV {
        RecordV { id: self.id@, title: self.title@, date: self.date@, content: self.content@ }
    }
}

/// The views of a vector of records.
pub open spec fn recs_view(rs: Seq<ConversationRecord>) -> Seq<RecordV> {
    rs.map_values(|r: ConversationRecord| r@)
}

/// One term occurrence record: the conversation ordinal, how often the
/// term occurs in the field, and the code-point offsets of those
/// occurrences.
#[derive(Debug)]
pub struct Posting {
    pub doc: usize,
    pub tf: usize,
    pub positions: Vec<usize>,
}

/// Mathematical form of a posting.
#[verifier::ext_equal]
pub struct PostingV {
    pub doc: int,
    pub tf: int,
    pub positions: Seq<int>,
}

impl View for Posting {
    type V = PostingV;

    open spec fn view(&self) -> PostingV {
        PostingV {
            doc: self.doc as int,
            tf: self.tf as int,
            positions: self.positions@.map_values(|p: usize| p as int),
        }
    }
}

/// A term of the dictionary with its postings, sorted by conversation
/// ordinal.
#[derive(Debug)]
pub struct TermPostings {
    pub term: String,
    pub postings: Vec<Posting>,
}

/// Mathematical form of a dictionary entry.
#[verifier::ext_equal]
pub struct TermPostingsV {
    pub term: Seq<char>,
    pub postings: Seq<PostingV>,
}

impl View for TermPostings {
    type V = TermPostingsV;

    open spec fn view(&self) -> TermPostingsV {
        TermPostingsV {
            term: self.term@,
            postings: self.postings@.map_values(|p: Posting| p@),
        }
    }
}

/// The views of one field's dictionary.
pub open spec fn terms_view(es: Seq<TermPostings>) -> Seq<TermPostingsV> {
    es.map_values(|e: TermPostings| e@)
}

/// The committed, immutable index snapshot: stored fields plus one
/// inverted dictionary per indexed field.
#[derive(Debug)]
pub struct SearchIndex {
    pub docs: Vec<ConversationRecord>,
    pub title_terms: Vec<TermPostings>,
    pub content_terms: Vec<TermPostings>,
}

/// Mathematical form of an index.
#[verifier::ext_equal]
pub struct IndexV {
    pub docs: Seq<RecordV>,
    pub title_terms: Seq<TermPostingsV>,
    pub content_terms: Seq<TermPostingsV>,
}

impl View for SearchIndex {
    type V = IndexV;

    open spec fn view(&self) -> IndexV {
        IndexV {
            docs: recs_view(self.docs@),
            title_terms: terms_view(self.title_terms@),
            content_terms: terms_view(self.content_terms@),
        }
    }
}

/// Index of the first entry of `es` whose term is `t`, or `es.len()` if
/// no entry has it.
pub open spec fn find_term(es: Seq<TermPostingsV>, t: Seq<char>) -> int
    decreases es.len(),
{
    if es.len() == 0 {
        0
    } else if es[0].term == t {
        0
    } else {
        1 + find_term(es.drop_first(), t)
    }
}

/// What [`find_term`] returns: the first index carrying `t`, within
/// bounds, and nothing before it carries `t`.
pub proof fn lemma_find_term(es: Seq<TermPostingsV>, t: Seq<char>)
    ensures
        0 <= find_term(es, t) <= es.len(),
        find_term(es, t) < es.len() ==> es[find_term(es, t)].term == t,
        forall|j: int| 0 <= j < find_term(es, t) ==> es[j].term != t,
        find_term(es, t) == es.len() ==> forall|j: int| 0 <= j < es.len() ==> es[j].term != t,
    decreases es.len(),
{
    if es.len() == 0 {
    } else if es[0].term == t {
    } else {
        lemma_find_term(es.drop_first(), t);
        let f = find_term(es, t);
        assert(f == 1 + find_term(es.drop_first(), t));
        assert forall|j: int| 0 <= j < f implies es[j].term != t by {
            if j >= 1 {
                assert(es.drop_first()[j - 1] == es[j]);
            }
        }
        if f == es.len() {
            assert forall|j: int| 0 <= j < es.len() implies es[j].term != t by {
                if j >= 1 {
                    assert(es.drop_first()[j - 1] == es[j]);
                }
            }
        }
    }
}

/// Appending an occurrence of doc `d` at offset `pos` to a postings list:
/// the last posting grows if it is already doc `d`, otherwise a fresh
/// posting is added.
pub open spec fn add_pos_spec(ps: Seq<PostingV>, d: int, pos: int) -> Seq<PostingV> {
    if ps.len() > 0 && ps.last().doc == d {
        ps.update(
            ps.len() - 1,
            PostingV { doc: d, tf: ps.last().tf + 1, positions: ps.last().positions.push(pos) },
        )
    } else {
        ps.push(PostingV { doc: d, tf: 1, positions: seq![pos] })
    }
}

/// Recording one token of doc `d` in a field dictionary: the token's term
/// entry gains the occurrence, or a fresh entry is appended if the term
/// is new.
pub open spec fn add_token_spec(es: Seq<TermPostingsV>, tok: TokenV, d: int) -> Seq<TermPostingsV> {
    let i = find_term(es, tok.term);
    if i < es.len() {
        es.update(
            i,
            TermPostingsV { term: es[i].term, postings: add_pos_spec(es[i].postings, d, tok.start) },
        )
    } else {
        es.push(
            TermPostingsV {
                term: tok.term,
                postings: seq![PostingV { doc: d, tf: 1, positions: seq![tok.start] }],
            },
        )
    }
}

/// Recording a doc's token stream, left to right.
pub open spec fn add_tokens_spec(es: Seq<TermPostingsV>, toks: Seq<TokenV>, d: int) -> Seq<
    TermPostingsV,
>
    decreases toks.len(),
{
    if toks.len() == 0 {
        es
    } else {
        add_token_spec(add_tokens_spec(es, toks.drop_last(), d), toks.last(), d)
    }
}

/// The dictionary accumulated over the first `d` texts of a field.
pub open spec fn field_upto(texts: Seq<Seq<char>>, d: int) -> Seq<TermPostingsV>
    decreases d,
    when d >= 0
{
    if d <= 0 {
        Seq::empty()
    } else {
        add_tokens_spec(field_upto(texts, d - 1), tokens_spec(texts[d - 1]), d - 1)
    }
}

/// The dictionary of one field over all its texts.
pub open spec fn field_spec(texts: Seq<Seq<char>>) -> Seq<TermPostingsV> {
    field_upto(texts, texts.len() as int)
}

/// The folded title of each record, in order.
pub open spec fn titles_folded(records: Seq<RecordV>) -> Seq<Seq<char>> {
    records.map_values(|r: RecordV| lower_of(r.title))
}

/// The folded content of each record, in order.
pub open spec fn contents_folded(records: Seq<RecordV>) -> Seq<Seq<char>> {
    records.map_values(|r: RecordV| lower_of(r.content))
}

/// What a build produces: the records as stored fields, and one inverted
/// dictionary per field over the lower-cased field texts.
pub open spec fn build_spec(records: Seq<RecordV>) -> IndexV {
    IndexV {
        docs: records,
        title_terms: field_spec(titles_folded(records)),
        content_terms: field_spec(contents_folded(records)),
    }
}

/// Every posting carries a term frequency equal to its number of recorded
/// positions (so a frequency bump can never overflow).
pub open spec fn tf_positions_ok(es: Seq<TermPostingsV>) -> bool {
    forall|i: int, j: int|
        0 <= i < es.len() && 0 <= j < es[i].postings.len() ==> (#[trigger] es[i].postings[j]).tf
            == es[i].postings[j].positions.len()
}

/// Records one token occurrence of doc `d` in the dictionary.
fn add_token(entries: &mut Vec<TermPostings>, term: &String, pos: usize, d: usize)
    requires
        tf_positions_ok(terms_view(old(entries)@)),
    ensures
        terms_view(final(entries)@) == add_token_spec(
            terms_view(old(entries)@),
            TokenV { term: term@, start: pos as int },
            d as int,
        ),
        tf_positions_ok(terms_view(final(entries)@)),
{
    let ghost es0 = terms_view(old(entries)@);
    let ghost tok = TokenV { term: term@, start: pos as int };
    proof {
        lemma_find_term(es0, term@);
    }
    let n = entries.len();
    let mut i: usize = 0;
    let mut found = false;
    while i < n && !found
        invariant
            n == entries@.len(),
            es0 == terms_view(entries@),
            i <= n,
            !found ==> forall|j: int| 0 <= j < i ==> es0[j].term != term@,
            found ==> i < n && es0[i as int].term == term@ && (forall|j: int|
                0 <= j < i ==> es0[j].term != term@),
        decreases n - i + (if found { 0int } else { 1int }),
    {
        if entries[i].term.eq(term) {
            found = true;
        } else {
            i = i + 1;
        }
    }
    if found {
        proof {
            assert(find_term(es0, term@) == i as int) by {
                lemma_find_term(es0, term@);
                if find_term(es0, term@) < i as int {
                    assert(es0[find_term(es0, term@)].term == term@);
                }
                if find_term(es0, term@) > i as int {
                    assert(es0[i as int].term != term@);
                }
            }
        }
        let mut entry = entries.remove(i);
        proof {
            assert(entry@ == es0[i as int]);
        }
        let m = entry.postings.len();
        let mut grow_last = false;
        if m > 0 {
            if entry.postings[m - 1].doc == d {
                grow_last = true;
            }
        }
        let ghost ps0 = entry@.postings;
        if grow_last {
            proof {
                assert(ps0[m - 1].tf == ps0[m - 1].positions.len());
            }
            let mut p = entry.postings.pop().unwrap();
            proof {
                assert(p@ == ps0.last());
            }
            p.positions.push(pos);
            let bumped = p.positions.len();
            p.tf = bumped;
            entry.postings.push(p);
            proof {
                assert(entry@.postings =~~= add_pos_spec(ps0, d as int, pos as int));
            }
        } else {
            proof {
                assert(ps0.len() == 0 || ps0.last().doc != d as int);
            }
            let mut positions: Vec<usize> = Vec::new();
            positions.push(pos);
            entry.postings.push(Posting { doc: d, tf: 1, positions });
            proof {
                assert(entry@.postings =~~= add_pos_spec(ps0, d as int, pos as int));
            }
        }
        entries.insert(i, entry);
        proof {
            assert(terms_view(entries@) =~~= add_token_spec(es0, tok, d as int));
            let esf = terms_view(entries@);
            assert forall|a: int, b: int|
                0 <= a < esf.len() && 0 <= b < esf[a].postings.len() implies (
            #[trigger] esf[a].postings[b]).tf == esf[a].postings[b].positions.len() by {
                if a == i as int {
                    if b < ps0.len() - 1 || (b < ps0.len() && !(ps0.len() > 0 && ps0.last().doc
                        == d as int)) {
                        assert(esf[a].postings[b] == ps0[b]);
                        assert(ps0[b].tf == ps0[b].positions.len());
                    }
                } else {
                    assert(esf[a] == es0[a]);
                    assert(es0[a].postings[b].tf == es0[a].postings[b].positions.len());
                }
            }
        }
    } else {
        proof {
            assert(i == n);
            assert(find_term(es0, term@) == es0.len()) by {
                lemma_find_term(es0, term@);
                if find_term(es0, term@) < es0.len() {
                    assert(es0[find_term(es0, term@)].term == term@);
                }
            }
        }
        let mut positions: Vec<usize> = Vec::new();
        positions.push(pos);
        let mut postings: Vec<Posting> = Vec::new();
        postings.push(Posting { doc: d, tf: 1, positions });
        entries.push(TermPostings { term: term.clone(), postings });
        proof {
            assert(terms_view(entries@) =~~= add_token_spec(es0, tok, d as int));
            let esf = terms_view(entries@);
            assert forall|a: int, b: int|
                0 <= a < esf.len() && 0 <= b < esf[a].postings.len() implies (
            #[trigger] esf[a].postings[b]).tf == esf[a].postings[b].positions.len() by {
                if a < es0.len() {
                    assert(esf[a] == es0[a]);
                    assert(es0[a].postings[b].tf == es0[a].postings[b].positions.len());
                }
            }
        }
    }
}

/// Records a doc's whole token stream in the dictionary.
fn add_tokens(entries: &mut Vec<TermPostings>, toks: &Vec<Token>, d: usize)
    requires
        tf_positions_ok(terms_view(old(entries)@)),
    ensures
        terms_view(final(entries)@) == add_tokens_spec(
            terms_view(old(entries)@),
            tokens_view(toks@),
            d as int,
        ),
        tf_positions_ok(terms_view(final(entries)@)),
{
    let ghost es0 = terms_view(old(entries)@);
    let ghost tv = tokens_view(toks@);
    let mut j: usize = 0;
    proof {
        assert(tv.take(0) =~= Seq::<TokenV>::empty());
    }
    while j < toks.len()
        invariant
            tv == tokens_view(toks@),
            j <= toks@.len(),
            terms_view(entries@) == add_tokens_spec(es0, tv.take(j as int), d as int),
            tf_positions_ok(terms_view(entries@)),
        decreases toks@.len() - j,
    {
        let t = &toks[j];
        add_token(entries, &t.term, t.start, d);
        proof {
            assert(tv.take(j as int + 1).drop_last() =~= tv.take(j as int));
            assert(tv.take(j as int + 1).last() == tv[j as int]);
        }
        j = j + 1;
    }
    proof {
        assert(tv.take(toks@.len() as int) =~= tv);
    }
}

/// The fallback title of a conversation that has none.
pub open spec fn untitled() -> Seq<char> {
    seq!['U', 'n', 't', 'i', 't', 'l', 'e', 'd']
}

impl ConversationRecord {
    /// Makes a record from extracted parts: a missing title falls back to
    /// the fallback title, a missing timestamp to the empty date, so a
    /// conversation without optional metadata is still indexed.
    pub fn new(id: String, title: Option<String>, date: Option<String>, content: String) -> (r:
        ConversationRecord)
        ensures
            r@.id == id@,
            r@.content == content@,
            (title matches Some(t) ==> r@.title == t@),
            (title is None ==> r@.title == untitled()),
            (date matches Some(t) ==> r@.date == t@),
            (date is None ==> r@.date == Seq::<char>::empty()),
    {
        let t = match title {
            Some(t) => t,
            None => {
                let u = "Untitled".to_owned();
                proof {
                    reveal_strlit("Untitled");
                    assert(u@ =~= untitled());
                }
                u
            },
        };
        let dt = match date {
            Some(d) => d,
            None => String::new(),
        };
        ConversationRecord { id, title: t, date: dt, content }
    }
}

impl SearchIndex {
    /// Builds the index over a batch of records in one pass: for each
    /// record and each indexed field, the lower-cased field text is
    /// tokenized and every token is recorded; the records themselves
    /// become the stored-fields table. The result is exactly
    /// [`build_spec`] of the records.
    pub fn build(records: Vec<ConversationRecord>) -> (idx: SearchIndex)
        ensures
            idx@ == build_spec(recs_view(records@)),
            tf_positions_ok(idx@.title_terms),
            tf_positions_ok(idx@.content_terms),
    {
        let ghost rv = recs_view(records@);
        let mut title_terms: Vec<TermPostings> = Vec::new();
        let mut content_terms: Vec<TermPostings> = Vec::new();
        let mut d: usize = 0;
        while d < records.len()
            invariant
                rv == recs_view(records@),
                d <= records@.len(),
                terms_view(title_terms@) == field_upto(titles_folded(rv), d as int),
                terms_view(content_terms@) == field_upto(contents_folded(rv), d as int),
                tf_positions_ok(terms_view(title_terms@)),
                tf_positions_ok(terms_view(content_terms@)),
            decreases records@.len() - d,
        {
            let rec = &records[d];
            let folded_title = fold_case(rec.title.as_str());
            let title_toks = tokenize(folded_title.as_str());
            add_tokens(&mut title_terms, &title_toks, d);
            proof {
                assert(titles_folded(rv)[d as int] == lower_of(rv[d as int].title));
                assert(terms_view(title_terms@) == field_upto(titles_folded(rv), d as int + 1));
            }
            let folded_content = fold_case(rec.content.as_str());
            let content_toks = tokenize(folded_content.as_str());
            add_tokens(&mut content_terms, &content_toks, d);
            proof {
                assert(contents_folded(rv)[d as int] == lower_of(rv[d as int].content));
                assert(terms_view(content_terms@) == field_upto(contents_folded(rv), d as int + 1));
            }
            d = d + 1;
        }
        let idx = SearchIndex { docs: records, title_terms, content_terms };
        proof {
            assert(idx@ =~= build_spec(rv));
        }
        idx
    }
}

} // verus!
// === Semantic characterization of the built index ===
//
// The functions below say what a frequency lookup in the dictionary
// returns, and the lemmas show that for a built index it is exactly the
// number of occurrences of the term in the doc's folded field text.

verus! {

/// First-match term-frequency lookup in a postings list: the frequency
/// recorded for doc `d`, or 0 if no posting carries `d`.
pub open spec fn tf_postings(ps: Seq<PostingV>, d: int) -> int
    decreases ps.len(),
{
    if ps.len() == 0 {
        0
    } else if ps[0].doc == d {
        ps[0].tf
    } else {
        tf_postings(ps.drop_first(), d)
    }
}

/// Recorded term frequency of term `t` in doc `d` for one field
/// dictionary: the lookup the query engine performs.
pub open spec fn tf_in(es: Seq<TermPostingsV>, t: Seq<char>, d: int) -> int {
    let i = find_term(es, t);
    if i < es.len() {
        tf_postings(es[i].postings, d)
    } else {
        0
    }
}

/// Postings lists are sorted strictly by doc ordinal, stay below `bound`,
/// and record positive frequencies.
pub open spec fn postings_ok(ps: Seq<PostingV>, bound: int) -> bool {
    &&& forall|a: int| 0 <= a < ps.len() ==> (#[trigger] ps[a]).doc < bound && ps[a].tf >= 1
    &&& forall|a: int, b: int|
        0 <= a < b < ps.len() ==> (#[trigger] ps[a]).doc < (#[trigger] ps[b]).doc
}

/// Dictionary well-formedness at stage `bound`: terms are distinct and
/// every entry has a non-empty, sorted, bounded postings list.
pub open spec fn wf_field(es: Seq<TermPostingsV>, bound: int) -> bool {
    &&& forall|a: int|
        0 <= a < es.len() ==> (#[trigger] es[a]).postings.len() >= 1 && postings_ok(
            es[a].postings,
            bound,
        )
    &&& forall|a: int, b: int|
        0 <= a < b < es.len() ==> (#[trigger] es[a]).term != (#[trigger] es[b]).term
}

proof fn lemma_tf_postings_absent(ps: Seq<PostingV>, d: int)
    requires
        forall|a: int| 0 <= a < ps.len() ==> (#[trigger] ps[a]).doc != d,
    ensures
        tf_postings(ps, d) == 0,
    decreases ps.len(),
{
    if ps.len() > 0 {
        assert(ps[0].doc != d);
        assert(forall|a: int|
            0 <= a < ps.drop_first().len() ==> (#[trigger] ps.drop_first()[a]).doc != d);
        lemma_tf_postings_absent(ps.drop_first(), d);
    }
}

proof fn lemma_tf_push_other(ps: Seq<PostingV>, x: PostingV, d2: int)
    requires
        x.doc != d2,
    ensures
        tf_postings(ps.push(x), d2) == tf_postings(ps, d2),
    decreases ps.len(),
{
    if ps.len() == 0 {
        assert(ps.push(x)[0] == x);
        assert(ps.push(x).drop_first() =~= Seq::<PostingV>::empty());
        assert(tf_postings(Seq::<PostingV>::empty(), d2) == 0);
        assert(tf_postings(ps, d2) == 0);
    } else {
        assert(ps.push(x)[0] == ps[0]);
        if ps[0].doc != d2 {
            assert(ps.push(x).drop_first() =~= ps.drop_first().push(x));
            lemma_tf_push_other(ps.drop_first(), x, d2);
            assert(tf_postings(ps.push(x), d2) == tf_postings(ps.drop_first().push(x), d2));
            assert(tf_postings(ps, d2) == tf_postings(ps.drop_first(), d2));
        }
    }
}

proof fn lemma_tf_scan_last(ps: Seq<PostingV>, d2: int)
    requires
        ps.len() > 0,
        forall|a: int| 0 <= a < ps.len() - 1 ==> (#[trigger] ps[a]).doc != d2,
    ensures
        tf_postings(ps, d2) == if ps.last().doc == d2 {
            ps.last().tf
        } else {
            0
        },
    decreases ps.len(),
{
    if ps.len() == 1 {
        assert(ps.drop_first() =~= Seq::<PostingV>::empty());
        assert(tf_postings(Seq::<PostingV>::empty(), d2) == 0);
        assert(ps.last() == ps[0]);
    } else {
        assert(ps[0].doc != d2);
        assert(forall|a: int|
            0 <= a < ps.drop_first().len() - 1 ==> (#[trigger] ps.drop_first()[a]).doc != d2);
        assert(ps.drop_first().last() == ps.last());
        lemma_tf_scan_last(ps.drop_first(), d2);
    }
}

proof fn lemma_tf_update_last_other(ps: Seq<PostingV>, p2: PostingV, d2: int)
    requires
        ps.len() > 0,
        ps.last().doc != d2,
        p2.doc != d2,
    ensures
        tf_postings(ps.update(ps.len() - 1, p2), d2) == tf_postings(ps, d2),
    decreases ps.len(),
{
    let ps2 = ps.update(ps.len() - 1, p2);
    if ps.len() == 1 {
        assert(ps2[0] == p2);
        assert(ps2.drop_first() =~= Seq::<PostingV>::empty());
        assert(ps.drop_first() =~= Seq::<PostingV>::empty());
    } else {
        assert(ps2[0] == ps[0]);
        if ps[0].doc != d2 {
            assert(ps2.drop_first() =~= ps.drop_first().update(ps.drop_first().len() - 1, p2));
            assert(ps.drop_first().last() == ps.last());
            lemma_tf_update_last_other(ps.drop_first(), p2, d2);
        }
    }
}

/// Appending one occurrence of doc `d` bumps the recorded frequency for
/// `d` by one, leaves every other doc's frequency alone, and preserves
/// postings well-formedness.
proof fn lemma_add_pos_tf(ps: Seq<PostingV>, d: int, pos: int, d2: int)
    requires
        postings_ok(ps, d + 1),
    ensures
        postings_ok(add_pos_spec(ps, d, pos), d + 1),
        add_pos_spec(ps, d, pos).len() >= 1,
        tf_postings(add_pos_spec(ps, d, pos), d) == tf_postings(ps, d) + 1,
        d2 != d ==> tf_postings(add_pos_spec(ps, d, pos), d2) == tf_postings(ps, d2),
{
    let ps2 = add_pos_spec(ps, d, pos);
    if ps.len() > 0 && ps.last().doc == d {
        let p2 = PostingV { doc: d, tf: ps.last().tf + 1, positions: ps.last().positions.push(pos) };
        assert(ps2 == ps.update(ps.len() - 1, p2));
        assert(forall|a: int| 0 <= a < ps.len() - 1 ==> (#[trigger] ps[a]).doc < ps.last().doc);
        lemma_tf_scan_last(ps, d);
        assert(forall|a: int| 0 <= a < ps2.len() - 1 ==> ps2[a] == ps[a]);
        assert(ps2.last() == p2);
        lemma_tf_scan_last(ps2, d);
        if d2 != d {
            lemma_tf_update_last_other(ps, p2, d2);
        }
    } else {
        let p2 = PostingV { doc: d, tf: 1, positions: seq![pos] };
        assert(ps2 == ps.push(p2));
        assert(forall|a: int| 0 <= a < ps.len() ==> (#[trigger] ps[a]).doc != d) by {
            if ps.len() > 0 {
                assert(forall|a: int|
                    0 <= a < ps.len() - 1 ==> (#[trigger] ps[a]).doc < ps.last().doc);
            }
        }
        lemma_tf_postings_absent(ps, d);
        assert(forall|a: int| 0 <= a < ps2.len() - 1 ==> ps2[a] == ps[a]);
        lemma_tf_scan_last(ps2, d);
        if d2 != d {
            lemma_tf_push_other(ps, p2, d2);
        }
    }
}

proof fn lemma_find_term_update_same(es: Seq<TermPostingsV>, i: int, e2: TermPostingsV, t: Seq<char>)
    requires
        0 <= i < es.len(),
        e2.term == es[i].term,
    ensures
        find_term(es.update(i, e2), t) == find_term(es, t),
    decreases es.len(),
{
    let es2 = es.update(i, e2);
    if i == 0 {
        assert(es2[0].term == es[0].term);
        if es[0].term != t {
            assert(es2.drop_first() =~= es.drop_first());
        }
    } else {
        assert(es2[0] == es[0]);
        if es[0].term != t {
            assert(es2.drop_first() =~= es.drop_first().update(i - 1, e2));
            lemma_find_term_update_same(es.drop_first(), i - 1, e2, t);
        }
    }
}

proof fn lemma_find_term_push(es: Seq<TermPostingsV>, e2: TermPostingsV, t: Seq<char>)
    ensures
        find_term(es.push(e2), t) == if find_term(es, t) < es.len() {
            find_term(es, t)
        } else if e2.term == t {
            es.len() as int
        } else {
            es.len() + 1int
        },
    decreases es.len(),
{
    lemma_find_term(es, t);
    if es.len() == 0 {
        assert(es.push(e2)[0] == e2);
        assert(es.push(e2).drop_first() =~= Seq::<TermPostingsV>::empty());
        assert(find_term(Seq::<TermPostingsV>::empty(), t) == 0);
    } else {
        assert(es.push(e2)[0] == es[0]);
        if es[0].term != t {
            assert(es.push(e2).drop_first() =~= es.drop_first().push(e2));
            lemma_find_term_push(es.drop_first(), e2, t);
            assert(find_term(es.push(e2), t) == 1 + find_term(es.drop_first().push(e2), t));
            assert(find_term(es, t) == 1 + find_term(es.drop_first(), t));
        }
    }
}

/// Recording one token of doc `d` bumps the recorded frequency of the
/// token's term for `d` by one and changes no other frequency, while
/// preserving dictionary well-formedness.
proof fn lemma_add_token_tf(es: Seq<TermPostingsV>, tok: TokenV, d: int, t: Seq<char>, d2: int)
    requires
        wf_field(es, d + 1),
    ensures
        wf_field(add_token_spec(es, tok, d), d + 1),
        tf_in(add_token_spec(es, tok, d), t, d) == tf_in(es, t, d) + if tok.term == t {
            1int
        } else {
            0int
        },
        d2 != d ==> tf_in(add_token_spec(es, tok, d), t, d2) == tf_in(es, t, d2),
{
    let i = find_term(es, tok.term);
    lemma_find_term(es, tok.term);
    lemma_find_term(es, t);
    let es2 = add_token_spec(es, tok, d);
    if i < es.len() {
        let e2 = TermPostingsV {
            term: es[i].term,
            postings: add_pos_spec(es[i].postings, d, tok.start),
        };
        assert(es2 == es.update(i, e2));
        lemma_add_pos_tf(es[i].postings, d, tok.start, d2);
        lemma_find_term_update_same(es, i, e2, t);
        lemma_find_term_update_same(es, i, e2, tok.term);
        assert(wf_field(es2, d + 1)) by {
            assert(forall|a: int|
                0 <= a < es2.len() && a != i ==> es2[a] == es[a]);
            assert(forall|a: int, b: int|
                0 <= a < b < es2.len() ==> (#[trigger] es2[a]).term == es[a].term && (
                #[trigger] es2[b]).term == es[b].term);
        }
        if t == tok.term {
            assert(find_term(es2, t) == i);
            assert(es2[i] == e2);
        } else {
            let f = find_term(es, t);
            if f < es.len() {
                assert(es[f].term == t && es[i].term == tok.term);
                assert(f != i);
                assert(es2[f] == es[f]);
            }
        }
    } else {
        let e2 = TermPostingsV {
            term: tok.term,
            postings: seq![PostingV { doc: d, tf: 1, positions: seq![tok.start] }],
        };
        assert(es2 == es.push(e2));
        lemma_find_term_push(es, e2, t);
        lemma_find_term_push(es, e2, tok.term);
        assert(forall|a: int| 0 <= a < es.len() ==> es2[a] == es[a]);
        assert(es2.last() == e2);
        assert(wf_field(es2, d + 1)) by {
            assert(postings_ok(e2.postings, d + 1));
            assert(forall|a: int| 0 <= a < es.len() ==> (#[trigger] es[a]).term != tok.term);
        }
        if t == tok.term {
            assert(find_term(es2, t) == es.len());
            assert(tf_postings(e2.postings, d) == 1) by {
                assert(e2.postings[0].doc == d);
            }
            if d2 != d {
                assert(tf_postings(e2.postings, d2) == 0) by {
                    assert(e2.postings[0].doc != d2);
                    assert(e2.postings.drop_first() =~= Seq::<PostingV>::empty());
                    assert(tf_postings(Seq::<PostingV>::empty(), d2) == 0);
                }
            }
        } else {
            let f = find_term(es, t);
            if f < es.len() {
                assert(es2[f] == es[f]);
            }
        }
    }
}

/// Recording a doc's whole token stream adds, for every term, exactly as
/// many occurrences for that doc as the stream carries, and changes no
/// other doc's frequencies.
proof fn lemma_add_tokens_tf(es: Seq<TermPostingsV>, toks: Seq<TokenV>, d: int, t: Seq<char>, d2: int)
    requires
        wf_field(es, d + 1),
    ensures
        wf_field(add_tokens_spec(es, toks, d), d + 1),
        tf_in(add_tokens_spec(es, toks, d), t, d) == tf_in(es, t, d) + count_term(toks, t),
        d2 != d ==> tf_in(add_tokens_spec(es, toks, d), t, d2) == tf_in(es, t, d2),
    decreases toks.len(),
{
    if toks.len() == 0 {
    } else {
        lemma_add_tokens_tf(es, toks.drop_last(), d, t, d2);
        lemma_add_token_tf(add_tokens_spec(es, toks.drop_last(), d), toks.last(), d, t, d2);
        lemma_count_term_concat(toks.drop_last(), seq![toks.last()], t);
        assert(toks.drop_last() + seq![toks.last()] =~= toks);
        assert(count_term(seq![toks.last()], t) == if toks.last().term == t {
            1nat
        } else {
            0nat
        }) by {
            assert(seq![toks.last()].drop_first() =~= Seq::<TokenV>::empty());
            assert(count_term(Seq::<TokenV>::empty(), t) == 0);
        }
    }
}

/// The dictionary accumulated over the first `i` texts is well-formed,
/// and for each already-processed doc the recorded frequency of any term
/// is its count in that doc's token stream; unprocessed docs have no
/// postings.
proof fn lemma_field_upto_tf(texts: Seq<Seq<char>>, i: int, t: Seq<char>, d: int)
    requires
        0 <= i <= texts.len(),
    ensures
        wf_field(field_upto(texts, i), i),
        0 <= d < i ==> tf_in(field_upto(texts, i), t, d) == count_term(tokens_spec(texts[d]), t),
        d >= i ==> tf_in(field_upto(texts, i), t, d) == 0,
    decreases i,
{
    if i == 0 {
        assert(field_upto(texts, 0) =~= Seq::<TermPostingsV>::empty());
    } else {
        lemma_field_upto_tf(texts, i - 1, t, d);
        let prev = field_upto(texts, i - 1);
        assert(wf_field(prev, i));
        lemma_add_tokens_tf(prev, tokens_spec(texts[i - 1]), i - 1, t, d);
        if d == i - 1 {
            lemma_field_upto_tf(texts, i - 1, t, i - 1);
        }
    }
}

/// A built field dictionary records, for every doc and every admissible
/// term, exactly the number of occurrences of the term in the doc's
/// text.
pub proof fn lemma_field_tf(texts: Seq<Seq<char>>, d: int, t: Seq<char>)
    requires
        0 <= d < texts.len(),
        MIN_GRAM <= t.len() <= MAX_GRAM,
    ensures
        tf_in(field_spec(texts), t, d) == count_occ(texts[d], t),
{
    lemma_field_upto_tf(texts, texts.len() as int, t, d);
    lemma_token_count(texts[d], t);
}

/// A built field dictionary is well-formed.
pub proof fn lemma_field_wf(texts: Seq<Seq<char>>)
    ensures
        wf_field(field_spec(texts), texts.len() as int),
{
    lemma_field_upto_tf(texts, texts.len() as int, Seq::empty(), 0);
}

/// The built index records, for every doc and every admissible term,
/// exactly the term's number of occurrences in the doc's lower-cased
/// title and content.
pub proof fn lemma_build_tf(records: Seq<RecordV>, d: int, t: Seq<char>)
    requires
        0 <= d < records.len(),
        MIN_GRAM <= t.len() <= MAX_GRAM,
    ensures
        tf_in(build_spec(records).title_terms, t, d) == count_occ(lower_of(records[d].title), t),
        tf_in(build_spec(records).content_terms, t, d) == count_occ(
            lower_of(records[d].content),
            t,
        ),
{
    lemma_field_tf(titles_folded(records), d, t);
    lemma_field_tf(contents_folded(records), d, t);
}

} // verus!
// === Exact characterization of the stored positions ===
//
// Not only how often a term occurs, but where: the positions a built
// index records for a term and doc are exactly the ascending offsets of
// the term's occurrences in the doc's folded field text.

verus! {

use crate::tokenize::{lemma_starts_concat, lemma_token_starts, offsets_of, starts_of};

/// First-match position lookup in a postings list: the positions
/// recorded for doc `d`, or none if no posting carries `d`.
pub open spec fn positions_postings(ps: Seq<PostingV>, d: int) -> Seq<int>
    decreases ps.len(),
{
    if ps.len() == 0 {
        Seq::empty()
    } else if ps[0].doc == d {
        ps[0].positions
    } else {
        positions_postings(ps.drop_first(), d)
    }
}

/// Recorded positions of term `t` in doc `d` for one field dictionary.
pub open spec fn positions_in(es: Seq<TermPostingsV>, t: Seq<char>, d: int) -> Seq<int> {
    let i = find_term(es, t);
    if i < es.len() {
        positions_postings(es[i].postings, d)
    } else {
        Seq::empty()
    }
}

proof fn lemma_positions_postings_absent(ps: Seq<PostingV>, d: int)
    requires
        forall|a: int| 0 <= a < ps.len() ==> (#[trigger] ps[a]).doc != d,
    ensures
        positions_postings(ps, d) == Seq::<int>::empty(),
    decreases ps.len(),
{
    if ps.len() > 0 {
        assert(ps[0].doc != d);
        assert(forall|a: int|
            0 <= a < ps.drop_first().len() ==> (#[trigger] ps.drop_first()[a]).doc != d);
        lemma_positions_postings_absent(ps.drop_first(), d);
    }
}

proof fn lemma_positions_push_other(ps: Seq<PostingV>, x: PostingV, d2: int)
    requires
        x.doc != d2,
    ensures
        positions_postings(ps.push(x), d2) == positions_postings(ps, d2),
    decreases ps.len(),
{
    if ps.len() == 0 {
        assert(ps.push(x)[0] == x);
        assert(ps.push(x).drop_first() =~= Seq::<PostingV>::empty());
        assert(positions_postings(Seq::<PostingV>::empty(), d2) == Seq::<int>::empty());
        assert(positions_postings(ps, d2) == Seq::<int>::empty());
    } else {
        assert(ps.push(x)[0] == ps[0]);
        if ps[0].doc != d2 {
            assert(ps.push(x).drop_first() =~= ps.drop_first().push(x));
            lemma_positions_push_other(ps.drop_first(), x, d2);
            assert(positions_postings(ps.push(x), d2) == positions_postings(
                ps.drop_first().push(x),
                d2,
            ));
            assert(positions_postings(ps, d2) == positions_postings(ps.drop_first(), d2));
        }
    }
}

proof fn lemma_positions_scan_last(ps: Seq<PostingV>, d2: int)
    requires
        ps.len() > 0,
        forall|a: int| 0 <= a < ps.len() - 1 ==> (#[trigger] ps[a]).doc != d2,
    ensures
        positions_postings(ps, d2) == if ps.last().doc == d2 {
            ps.last().positions
        } else {
            Seq::<int>::empty()
        },
    decreases ps.len(),
{
    if ps.len() == 1 {
        assert(ps.drop_first() =~= Seq::<PostingV>::empty());
        assert(positions_postings(Seq::<PostingV>::empty(), d2) == Seq::<int>::empty());
        assert(ps.last() == ps[0]);
    } else {
        assert(ps[0].doc != d2);
        assert(forall|a: int|
            0 <= a < ps.drop_first().len() - 1 ==> (#[trigger] ps.drop_first()[a]).doc != d2);
        assert(ps.drop_first().last() == ps.last());
        lemma_positions_scan_last(ps.drop_first(), d2);
    }
}

proof fn lemma_positions_update_last_other(ps: Seq<PostingV>, p2: PostingV, d2: int)
    requires
        ps.len() > 0,
        ps.last().doc != d2,
        p2.doc != d2,
    ensures
        positions_postings(ps.update(ps.len() - 1, p2), d2) == positions_postings(ps, d2),
    decreases ps.len(),
{
    let ps2 = ps.update(ps.len() - 1, p2);
    if ps.len() == 1 {
        assert(ps2[0] == p2);
        assert(ps2.drop_first() =~= Seq::<PostingV>::empty());
        assert(ps.drop_first() =~= Seq::<PostingV>::empty());
        assert(positions_postings(Seq::<PostingV>::empty(), d2) == Seq::<int>::empty());
    } else {
        assert(ps2[0] == ps[0]);
        if ps[0].doc != d2 {
            assert(ps2.drop_first() =~= ps.drop_first().update(ps.drop_first().len() - 1, p2));
            assert(ps.drop_first().last() == ps.last());
            lemma_positions_update_last_other(ps.drop_first(), p2, d2);
        }
    }
}

/// Appending one occurrence of doc `d` at offset `pos` appends `pos` to
/// the positions recorded for `d` and leaves every other doc's positions
/// alone.
proof fn lemma_add_pos_positions(ps: Seq<PostingV>, d: int, pos: int, d2: int)
    requires
        postings_ok(ps, d + 1),
    ensures
        positions_postings(add_pos_spec(ps, d, pos), d) == positions_postings(ps, d).push(pos),
        d2 != d ==> positions_postings(add_pos_spec(ps, d, pos), d2) == positions_postings(
            ps,
            d2,
        ),
{
    let ps2 = add_pos_spec(ps, d, pos);
    if ps.len() > 0 && ps.last().doc == d {
        let p2 = PostingV { doc: d, tf: ps.last().tf + 1, positions: ps.last().positions.push(pos) };
        assert(ps2 == ps.update(ps.len() - 1, p2));
        assert(forall|a: int| 0 <= a < ps.len() - 1 ==> (#[trigger] ps[a]).doc < ps.last().doc);
        lemma_positions_scan_last(ps, d);
        assert(forall|a: int| 0 <= a < ps2.len() - 1 ==> ps2[a] == ps[a]);
        assert(ps2.last() == p2);
        lemma_positions_scan_last(ps2, d);
        if d2 != d {
            lemma_positions_update_last_other(ps, p2, d2);
        }
    } else {
        let p2 = PostingV { doc: d, tf: 1, positions: seq![pos] };
        assert(ps2 == ps.push(p2));
        assert(forall|a: int| 0 <= a < ps.len() ==> (#[trigger] ps[a]).doc != d) by {
            if ps.len() > 0 {
                assert(forall|a: int|
                    0 <= a < ps.len() - 1 ==> (#[trigger] ps[a]).doc < ps.last().doc);
            }
        }
        lemma_positions_postings_absent(ps, d);
        assert(forall|a: int| 0 <= a < ps2.len() - 1 ==> ps2[a] == ps[a]);
        lemma_positions_scan_last(ps2, d);
        assert(Seq::<int>::empty().push(pos) =~= seq![pos]);
        if d2 != d {
            lemma_positions_push_other(ps, p2, d2);
        }
    }
}

/// Recording one token of doc `d` appends its offset to the positions of
/// its term for `d` and changes nothing else.
proof fn lemma_add_token_positions(es: Seq<TermPostingsV>, tok: TokenV, d: int, t: Seq<char>, d2: int)
    requires
        wf_field(es, d + 1),
    ensures
        positions_in(add_token_spec(es, tok, d), t, d) == if tok.term == t {
            positions_in(es, t, d).push(tok.start)
        } else {
            positions_in(es, t, d)
        },
        d2 != d ==> positions_in(add_token_spec(es, tok, d), t, d2) == positions_in(es, t, d2),
{
    let i = find_term(es, tok.term);
    lemma_find_term(es, tok.term);
    lemma_find_term(es, t);
    let es2 = add_token_spec(es, tok, d);
    if i < es.len() {
        let e2 = TermPostingsV {
            term: es[i].term,
            postings: add_pos_spec(es[i].postings, d, tok.start),
        };
        assert(es2 == es.update(i, e2));
        lemma_add_pos_positions(es[i].postings, d, tok.start, d2);
        lemma_find_term_update_same(es, i, e2, t);
        if t == tok.term {
            assert(find_term(es2, t) == i);
            assert(es2[i] == e2);
        } else {
            let f = find_term(es, t);
            if f < es.len() {
                assert(es[f].term == t && es[i].term == tok.term);
                assert(f != i);
                assert(es2[f] == es[f]);
            }
        }
    } else {
        let e2 = TermPostingsV {
            term: tok.term,
            postings: seq![PostingV { doc: d, tf: 1, positions: seq![tok.start] }],
        };
        assert(es2 == es.push(e2));
        lemma_find_term_push(es, e2, t);
        assert(forall|a: int| 0 <= a < es.len() ==> es2[a] == es[a]);
        assert(es2.last() == e2);
        if t == tok.term {
            assert(find_term(es2, t) == es.len());
            assert(positions_postings(e2.postings, d) == seq![tok.start]) by {
                assert(e2.postings[0].doc == d);
            }
            assert(Seq::<int>::empty().push(tok.start) =~= seq![tok.start]);
            if d2 != d {
                assert(positions_postings(e2.postings, d2) == Seq::<int>::empty()) by {
                    assert(e2.postings[0].doc != d2);
                    assert(e2.postings.drop_first() =~= Seq::<PostingV>::empty());
                    assert(positions_postings(Seq::<PostingV>::empty(), d2) == Seq::<
                        int,
                    >::empty());
                }
            }
        } else {
            let f = find_term(es, t);
            if f < es.len() {
                assert(es2[f] == es[f]);
            }
        }
    }
}

/// Recording a doc's whole token stream appends, for every term, exactly
/// the starts of the stream's tokens with that term, in stream order.
proof fn lemma_add_tokens_positions(
    es: Seq<TermPostingsV>,
    toks: Seq<TokenV>,
    d: int,
    t: Seq<char>,
    d2: int,
)
    requires
        wf_field(es, d + 1),
    ensures
        positions_in(add_tokens_spec(es, toks, d), t, d) == positions_in(es, t, d) + starts_of(
            toks,
            t,
        ),
        d2 != d ==> positions_in(add_tokens_spec(es, toks, d), t, d2) == positions_in(es, t, d2),
    decreases toks.len(),
{
    if toks.len() == 0 {
        assert(starts_of(toks, t) == Seq::<int>::empty());
        assert(positions_in(es, t, d) + Seq::<int>::empty() =~= positions_in(es, t, d));
    } else {
        lemma_add_tokens_positions(es, toks.drop_last(), d, t, d2);
        lemma_add_tokens_tf(es, toks.drop_last(), d, t, d2);
        lemma_add_token_positions(add_tokens_spec(es, toks.drop_last(), d), toks.last(), d, t, d2);
        lemma_starts_concat(toks.drop_last(), seq![toks.last()], t);
        assert(toks.drop_last() + seq![toks.last()] =~= toks);
        assert(starts_of(seq![toks.last()], t) == (if toks.last().term == t {
            seq![toks.last().start]
        } else {
            Seq::<int>::empty()
        }) + starts_of(Seq::<TokenV>::empty(), t)) by {
            assert(seq![toks.last()].drop_first() =~= Seq::<TokenV>::empty());
        }
        if toks.last().term == t {
            assert(starts_of(seq![toks.last()], t) =~= seq![toks.last().start]);
            assert((positions_in(es, t, d) + starts_of(toks.drop_last(), t)).push(
                toks.last().start,
            ) =~= positions_in(es, t, d) + starts_of(toks, t));
        } else {
            assert(starts_of(seq![toks.last()], t) =~= Seq::<int>::empty());
            assert(starts_of(toks, t) =~= starts_of(toks.drop_last(), t));
        }
    }
}

proof fn lemma_field_upto_positions(texts: Seq<Seq<char>>, i: int, t: Seq<char>, d: int)
    requires
        0 <= i <= texts.len(),
    ensures
        0 <= d < i ==> positions_in(field_upto(texts, i), t, d) == starts_of(
            tokens_spec(texts[d]),
            t,
        ),
        d >= i ==> positions_in(field_upto(texts, i), t, d) == Seq::<int>::empty(),
    decreases i,
{
    if i == 0 {
        assert(field_upto(texts, 0) =~= Seq::<TermPostingsV>::empty());
    } else {
        lemma_field_upto_positions(texts, i - 1, t, d);
        lemma_field_upto_tf(texts, i - 1, t, d);
        let prev = field_upto(texts, i - 1);
        assert(wf_field(prev, i));
        lemma_add_tokens_positions(prev, tokens_spec(texts[i - 1]), i - 1, t, d);
        if d == i - 1 {
            lemma_field_upto_positions(texts, i - 1, t, i - 1);
            assert(Seq::<int>::empty() + starts_of(tokens_spec(texts[d]), t) =~= starts_of(
                tokens_spec(texts[d]),
                t,
            ));
        }
    }
}

/// A built index's term frequencies agree with its position lists: for
/// every doc and admissible term, the recorded frequency is the number
/// of recorded positions.
pub proof fn lemma_build_tf_counts_positions(records: Seq<RecordV>, d: int, t: Seq<char>)
    requires
        0 <= d < records.len(),
        MIN_GRAM <= t.len() <= MAX_GRAM,
    ensures
        tf_in(build_spec(records).title_terms, t, d) == positions_in(
            build_spec(records).title_terms,
            t,
            d,
        ).len(),
        tf_in(build_spec(records).content_terms, t, d) == positions_in(
            build_spec(records).content_terms,
            t,
            d,
        ).len(),
{
    lemma_build_tf(records, d, t);
    lemma_build_positions(records, d, t);
    crate::tokenize::lemma_offsets_count(lower_of(records[d].title), t, 0);
    crate::tokenize::lemma_offsets_count(lower_of(records[d].content), t, 0);
}

/// The built index records, for every doc and every admissible term,
/// exactly the ascending offsets at which the term occurs in the doc's
/// lower-cased title and content.
pub proof fn lemma_build_positions(records: Seq<RecordV>, d: int, t: Seq<char>)
    requires
        0 <= d < records.len(),
        MIN_GRAM <= t.len() <= MAX_GRAM,
    ensures
        positions_in(build_spec(records).title_terms, t, d) == offsets_of(
            lower_of(records[d].title),
            t,
        ),
        positions_in(build_spec(records).content_terms, t, d) == offsets_of(
            lower_of(records[d].content),
            t,
        ),
{
    lemma_field_upto_positions(titles_folded(records), records.len() as int, t, d);
    lemma_token_starts(lower_of(records[d].title), t);
    lemma_field_upto_positions(contents_folded(records), records.len() as int, t, d);
    lemma_token_starts(lower_of(records[d].content), t);
}

} // verus!
