//! A durable byte encoding for the committed index snapshot. Counts and
//! numbers are 8-byte little-endian words; strings are a byte count
//! followed by UTF-8 bytes. Decoding checks the whole layout and yields
//! [`IndexError::IndexCorrupt`] on any violation, so an index read back
//! from storage is either exactly an encoded snapshot or refused.

use vstd::bytes::{
    lemma_auto_spec_u64_to_from_le_bytes, spec_u64_from_le_bytes, spec_u64_to_le_bytes,
    u64_from_le_bytes, u64_to_le_bytes,
};
use vstd::prelude::*;
use vstd::utf8::{decode_utf8, encode_utf8, encode_utf8_decode_utf8, encode_utf8_valid_utf8, valid_utf8};

use crate::index::{ConversationRecord, IndexV, Posting, PostingV, RecordV, SearchIndex, TermPostings, TermPostingsV};
use crate::IndexError;

verus! {

/// One number as 8 little-endian bytes.
pub open spec fn enc_u64(x: int) -> Seq<u8> {
    spec_u64_to_le_bytes(x as u64)
}

/// One string: its UTF-8 byte count, then its UTF-8 bytes.
pub open spec fn enc_str(s: Seq<char>) -> Seq<u8> {
    enc_u64(encode_utf8(s).len() as int) + encode_utf8(s)
}

/// A plain number list, first to last.
pub open spec fn enc_nums(xs: Seq<int>) -> Seq<u8>
    decreases xs.len(),
{
    if xs.len() == 0 {
        Seq::empty()
    } else {
        enc_u64(xs[0]) + enc_nums(xs.drop_first())
    }
}

/// One posting: doc ordinal, frequency, position count, positions.
pub open spec fn enc_posting(p: PostingV) -> Seq<u8> {
    enc_u64(p.doc) + enc_u64(p.tf) + enc_u64(p.positions.len() as int) + enc_nums(p.positions)
}

/// A postings list, first to last.
pub open spec fn enc_postings(ps: Seq<PostingV>) -> Seq<u8>
    decreases ps.len(),
{
    if ps.len() == 0 {
        Seq::empty()
    } else {
        enc_posting(ps[0]) + enc_postings(ps.drop_first())
    }
}

/// One dictionary entry: its term, its postings count, its postings.
pub open spec fn enc_entry(e: TermPostingsV) -> Seq<u8> {
    enc_str(e.term) + enc_u64(e.postings.len() as int) + enc_postings(e.postings)
}

/// A dictionary, first entry to last.
pub open spec fn enc_entries(es: Seq<TermPostingsV>) -> Seq<u8>
    decreases es.len(),
{
    if es.len() == 0 {
        Seq::empty()
    } else {
        enc_entry(es[0]) + enc_entries(es.drop_first())
    }
}

/// One stored-fields row: id, title, date, content.
pub open spec fn enc_doc(r: RecordV) -> Seq<u8> {
    enc_str(r.id) + enc_str(r.title) + enc_str(r.date) + enc_str(r.content)
}

/// The stored-fields table, first row to last.
pub open spec fn enc_docs(ds: Seq<RecordV>) -> Seq<u8>
    decreases ds.len(),
{
    if ds.len() == 0 {
        Seq::empty()
    } else {
        enc_doc(ds[0]) + enc_docs(ds.drop_first())
    }
}

/// The whole snapshot: the doc count and rows, then each field's entry
/// count and entries.
pub open spec fn encode_spec(iv: IndexV) -> Seq<u8> {
    enc_u64(iv.docs.len() as int) + enc_docs(iv.docs) + enc_u64(iv.title_terms.len() as int)
        + enc_entries(iv.title_terms) + enc_u64(iv.content_terms.len() as int) + enc_entries(
        iv.content_terms,
    )
}

/// Every number of the snapshot fits its encoded form: counts and
/// lengths fit 8 bytes, and values that decode back into memory sizes
/// fit the platform word. An index held in memory satisfies this by
/// construction.
pub open spec fn bounded_str(s: Seq<char>) -> bool {
    encode_utf8(s).len() <= usize::MAX
}

pub open spec fn bounded_posting(p: PostingV) -> bool {
    &&& 0 <= p.doc <= usize::MAX
    &&& 0 <= p.tf <= usize::MAX
    &&& p.positions.len() <= usize::MAX
    &&& forall|i: int| 0 <= i < p.positions.len() ==> 0 <= #[trigger] p.positions[i] <= usize::MAX
}

pub open spec fn bounded_entry(e: TermPostingsV) -> bool {
    &&& bounded_str(e.term)
    &&& e.postings.len() <= usize::MAX
    &&& forall|i: int| 0 <= i < e.postings.len() ==> bounded_posting(#[trigger] e.postings[i])
}

pub open spec fn bounded_doc(r: RecordV) -> bool {
    bounded_str(r.id) && bounded_str(r.title) && bounded_str(r.date) && bounded_str(r.content)
}

pub open spec fn bounded_index(iv: IndexV) -> bool {
    &&& iv.docs.len() <= usize::MAX
    &&& forall|i: int| 0 <= i < iv.docs.len() ==> bounded_doc(#[trigger] iv.docs[i])
    &&& iv.title_terms.len() <= usize::MAX
    &&& forall|i: int| 0 <= i < iv.title_terms.len() ==> bounded_entry(#[trigger] iv.title_terms[i])
    &&& iv.content_terms.len() <= usize::MAX
    &&& forall|i: int|
        0 <= i < iv.content_terms.len() ==> bounded_entry(#[trigger] iv.content_terms[i])
}

/// Reads one number: 8 bytes, little-endian.
pub open spec fn dec_u64(b: Seq<u8>) -> Option<(int, Seq<u8>)> {
    if b.len() < 8 {
        None
    } else {
        Some((spec_u64_from_le_bytes(b.take(8)) as int, b.skip(8)))
    }
}

/// Reads one string: a byte count, then that many bytes of valid UTF-8.
pub open spec fn dec_str(b: Seq<u8>) -> Option<(Seq<char>, Seq<u8>)> {
    match dec_u64(b) {
        None => None,
        Some((n, r)) => if r.len() < n {
            None
        } else if !valid_utf8(r.take(n)) {
            None
        } else {
            Some((decode_utf8(r.take(n)), r.skip(n)))
        },
    }
}

/// Reads `k` numbers, each of which must fit the platform word.
pub open spec fn dec_nums(b: Seq<u8>, k: int) -> Option<(Seq<int>, Seq<u8>)>
    decreases k,
    when k >= 0
{
    if k <= 0 {
        Some((Seq::empty(), b))
    } else {
        match dec_u64(b) {
            None => None,
            Some((x, r)) => if x > usize::MAX {
                None
            } else {
                match dec_nums(r, k - 1) {
                    None => None,
                    Some((xs, r2)) => Some((seq![x] + xs, r2)),
                }
            },
        }
    }
}

/// Reads one posting.
pub open spec fn dec_posting(b: Seq<u8>) -> Option<(PostingV, Seq<u8>)> {
    match dec_u64(b) {
        None => None,
        Some((doc, r1)) => if doc > usize::MAX {
            None
        } else {
            match dec_u64(r1) {
                None => None,
                Some((tf, r2)) => if tf > usize::MAX {
                    None
                } else {
                    match dec_u64(r2) {
                        None => None,
                        Some((npos, r3)) => match dec_nums(r3, npos) {
                            None => None,
                            Some((positions, r4)) => Some(
                                (PostingV { doc, tf, positions }, r4),
                            ),
                        },
                    }
                },
            }
        },
    }
}

/// Reads `k` postings.
pub open spec fn dec_postings(b: Seq<u8>, k: int) -> Option<(Seq<PostingV>, Seq<u8>)>
    decreases k,
    when k >= 0
{
    if k <= 0 {
        Some((Seq::empty(), b))
    } else {
        match dec_posting(b) {
            None => None,
            Some((p, r)) => match dec_postings(r, k - 1) {
                None => None,
                Some((ps, r2)) => Some((seq![p] + ps, r2)),
            },
        }
    }
}

/// Reads one dictionary entry.
pub open spec fn dec_entry(b: Seq<u8>) -> Option<(TermPostingsV, Seq<u8>)> {
    match dec_str(b) {
        None => None,
        Some((term, r1)) => match dec_u64(r1) {
            None => None,
            Some((k, r2)) => match dec_postings(r2, k) {
                None => None,
                Some((postings, r3)) => Some((TermPostingsV { term, postings }, r3)),
            },
        },
    }
}

/// Reads `k` dictionary entries.
pub open spec fn dec_entries(b: Seq<u8>, k: int) -> Option<(Seq<TermPostingsV>, Seq<u8>)>
    decreases k,
    when k >= 0
{
    if k <= 0 {
        Some((Seq::empty(), b))
    } else {
        match dec_entry(b) {
            None => None,
            Some((e, r)) => match dec_entries(r, k - 1) {
                None => None,
                Some((es, r2)) => Some((seq![e] + es, r2)),
            },
        }
    }
}

/// Reads one stored-fields row.
pub open spec fn dec_doc(b: Seq<u8>) -> Option<(RecordV, Seq<u8>)> {
    match dec_str(b) {
        None => None,
        Some((id, r1)) => match dec_str(r1) {
            None => None,
            Some((title, r2)) => match dec_str(r2) {
                None => None,
                Some((date, r3)) => match dec_str(r3) {
                    None => None,
                    Some((content, r4)) => Some((RecordV { id, title, date, content }, r4)),
                },
            },
        },
    }
}

/// Reads `k` stored-fields rows.
pub open spec fn dec_docs(b: Seq<u8>, k: int) -> Option<(Seq<RecordV>, Seq<u8>)>
    decreases k,
    when k >= 0
{
    if k <= 0 {
        Some((Seq::empty(), b))
    } else {
        match dec_doc(b) {
            None => None,
            Some((d, r)) => match dec_docs(r, k - 1) {
                None => None,
                Some((ds, r2)) => Some((seq![d] + ds, r2)),
            },
        }
    }
}

/// What a byte string decodes to: an index snapshot, if the bytes are
/// exactly one well-formed encoding with nothing left over.
pub open spec fn decode_spec(b: Seq<u8>) -> Option<IndexV> {
    match dec_u64(b) {
        None => None,
        Some((nd, r1)) => match dec_docs(r1, nd) {
            None => None,
            Some((docs, r2)) => match dec_u64(r2) {
                None => None,
                Some((nt, r3)) => match dec_entries(r3, nt) {
                    None => None,
                    Some((title_terms, r4)) => match dec_u64(r4) {
                        None => None,
                        Some((nc, r5)) => match dec_entries(r5, nc) {
                            None => None,
                            Some((content_terms, r6)) => if r6.len() == 0 {
                                Some(IndexV { docs, title_terms, content_terms })
                            } else {
                                None
                            },
                        },
                    },
                },
            },
        },
    }
}

proof fn lemma_dec_u64_enc(x: int, rest: Seq<u8>)
    requires
        0 <= x <= u64::MAX,
    ensures
        dec_u64(enc_u64(x) + rest) == Some((x, rest)),
{
    lemma_auto_spec_u64_to_from_le_bytes();
    let e = spec_u64_to_le_bytes(x as u64);
    assert(e.len() == 8);
    assert((e + rest).take(8) =~= e);
    assert((e + rest).skip(8) =~= rest);
}

proof fn lemma_dec_str_enc(s: Seq<char>, rest: Seq<u8>)
    requires
        bounded_str(s),
    ensures
        dec_str(enc_str(s) + rest) == Some((s, rest)),
{
    let eu = encode_utf8(s);
    assert(enc_str(s) + rest =~= enc_u64(eu.len() as int) + (eu + rest));
    lemma_dec_u64_enc(eu.len() as int, eu + rest);
    assert((eu + rest).take(eu.len() as int) =~= eu);
    assert((eu + rest).skip(eu.len() as int) =~= rest);
    encode_utf8_valid_utf8(s);
    encode_utf8_decode_utf8(s);
}

proof fn lemma_dec_nums_enc(xs: Seq<int>, rest: Seq<u8>)
    requires
        forall|i: int| 0 <= i < xs.len() ==> 0 <= #[trigger] xs[i] <= usize::MAX,
    ensures
        dec_nums(enc_nums(xs) + rest, xs.len() as int) == Some((xs, rest)),
    decreases xs.len(),
{
    if xs.len() == 0 {
        assert(enc_nums(xs) =~= Seq::<u8>::empty());
        assert(enc_nums(xs) + rest =~= rest);
        assert(dec_nums(rest, 0) == Some((Seq::<int>::empty(), rest)));
        assert(Seq::<int>::empty() =~= xs);
    } else {
        assert(enc_nums(xs) + rest =~= enc_u64(xs[0]) + (enc_nums(xs.drop_first()) + rest));
        lemma_dec_u64_enc(xs[0], enc_nums(xs.drop_first()) + rest);
        lemma_dec_nums_enc(xs.drop_first(), rest);
        assert(seq![xs[0]] + xs.drop_first() =~= xs);
    }
}

proof fn lemma_dec_posting_enc(p: PostingV, rest: Seq<u8>)
    requires
        bounded_posting(p),
    ensures
        dec_posting(enc_posting(p) + rest) == Some((p, rest)),
{
    let tail1 = enc_u64(p.tf) + enc_u64(p.positions.len() as int) + enc_nums(p.positions) + rest;
    assert(enc_posting(p) + rest =~= enc_u64(p.doc) + tail1);
    lemma_dec_u64_enc(p.doc, tail1);
    let tail2 = enc_u64(p.positions.len() as int) + enc_nums(p.positions) + rest;
    assert(tail1 =~= enc_u64(p.tf) + tail2);
    lemma_dec_u64_enc(p.tf, tail2);
    let tail3 = enc_nums(p.positions) + rest;
    assert(tail2 =~= enc_u64(p.positions.len() as int) + tail3);
    lemma_dec_u64_enc(p.positions.len() as int, tail3);
    lemma_dec_nums_enc(p.positions, rest);
    assert(PostingV { doc: p.doc, tf: p.tf, positions: p.positions } =~= p);
}

#[verifier::rlimit(100)]
#[verifier::spinoff_prover]
proof fn lemma_dec_postings_enc(ps: Seq<PostingV>, rest: Seq<u8>)
    requires
        forall|i: int| 0 <= i < ps.len() ==> bounded_posting(#[trigger] ps[i]),
    ensures
        dec_postings(enc_postings(ps) + rest, ps.len() as int) == Some((ps, rest)),
    decreases ps.len(),
{
    if ps.len() == 0 {
        assert(enc_postings(ps) =~= Seq::<u8>::empty());
        assert(enc_postings(ps) + rest =~= rest);
        assert(Seq::<PostingV>::empty() =~= ps);
    } else {
        assert(enc_postings(ps) + rest =~= enc_posting(ps[0]) + (enc_postings(ps.drop_first())
            + rest));
        lemma_dec_posting_enc(ps[0], enc_postings(ps.drop_first()) + rest);
        assert(forall|i: int|
            0 <= i < ps.drop_first().len() ==> #[trigger] ps.drop_first()[i] == ps[i + 1]);
        lemma_dec_postings_enc(ps.drop_first(), rest);
        assert(seq![ps[0]] + ps.drop_first() =~= ps);
    }
}

#[verifier::rlimit(100)]
#[verifier::spinoff_prover]
proof fn lemma_dec_entry_enc(e: TermPostingsV, rest: Seq<u8>)
    requires
        bounded_entry(e),
    ensures
        dec_entry(enc_entry(e) + rest) == Some((e, rest)),
{
    let tail1 = enc_u64(e.postings.len() as int) + enc_postings(e.postings) + rest;
    assert(enc_entry(e) + rest =~= enc_str(e.term) + tail1);
    lemma_dec_str_enc(e.term, tail1);
    let tail2 = enc_postings(e.postings) + rest;
    assert(tail1 =~= enc_u64(e.postings.len() as int) + tail2);
    lemma_dec_u64_enc(e.postings.len() as int, tail2);
    lemma_dec_postings_enc(e.postings, rest);
    assert(TermPostingsV { term: e.term, postings: e.postings } =~= e);
}

#[verifier::rlimit(100)]
#[verifier::spinoff_prover]
proof fn lemma_dec_entries_enc(es: Seq<TermPostingsV>, rest: Seq<u8>)
    requires
        forall|i: int| 0 <= i < es.len() ==> bounded_entry(#[trigger] es[i]),
    ensures
        dec_entries(enc_entries(es) + rest, es.len() as int) == Some((es, rest)),
    decreases es.len(),
{
    if es.len() == 0 {
        assert(enc_entries(es) =~= Seq::<u8>::empty());
        assert(enc_entries(es) + rest =~= rest);
        assert(Seq::<TermPostingsV>::empty() =~= es);
    } else {
        assert(enc_entries(es) + rest =~= enc_entry(es[0]) + (enc_entries(es.drop_first())
            + rest));
        lemma_dec_entry_enc(es[0], enc_entries(es.drop_first()) + rest);
        assert(forall|i: int|
            0 <= i < es.drop_first().len() ==> #[trigger] es.drop_first()[i] == es[i + 1]);
        lemma_dec_entries_enc(es.drop_first(), rest);
        assert(seq![es[0]] + es.drop_first() =~= es);
    }
}

#[verifier::rlimit(100)]
proof fn lemma_dec_doc_enc(r: RecordV, rest: Seq<u8>)
    requires
        bounded_doc(r),
    ensures
        dec_doc(enc_doc(r) + rest) == Some((r, rest)),
{
    let tail1 = enc_str(r.title) + enc_str(r.date) + enc_str(r.content) + rest;
    assert(enc_doc(r) + rest =~= enc_str(r.id) + tail1);
    lemma_dec_str_enc(r.id, tail1);
    let tail2 = enc_str(r.date) + enc_str(r.content) + rest;
    assert(tail1 =~= enc_str(r.title) + tail2);
    lemma_dec_str_enc(r.title, tail2);
    let tail3 = enc_str(r.content) + rest;
    assert(tail2 =~= enc_str(r.date) + tail3);
    lemma_dec_str_enc(r.date, tail3);
    lemma_dec_str_enc(r.content, rest);
    assert(RecordV { id: r.id, title: r.title, date: r.date, content: r.content } =~= r);
}

#[verifier::rlimit(100)]
#[verifier::spinoff_prover]
proof fn lemma_dec_docs_enc(ds: Seq<RecordV>, rest: Seq<u8>)
    requires
        forall|i: int| 0 <= i < ds.len() ==> bounded_doc(#[trigger] ds[i]),
    ensures
        dec_docs(enc_docs(ds) + rest, ds.len() as int) == Some((ds, rest)),
    decreases ds.len(),
{
    if ds.len() == 0 {
        assert(enc_docs(ds) =~= Seq::<u8>::empty());
        assert(enc_docs(ds) + rest =~= rest);
        assert(Seq::<RecordV>::empty() =~= ds);
    } else {
        assert(enc_docs(ds) + rest =~= enc_doc(ds[0]) + (enc_docs(ds.drop_first()) + rest));
        lemma_dec_doc_enc(ds[0], enc_docs(ds.drop_first()) + rest);
        assert(forall|i: int|
            0 <= i < ds.drop_first().len() ==> #[trigger] ds.drop_first()[i] == ds[i + 1]);
        lemma_dec_docs_enc(ds.drop_first(), rest);
        assert(seq![ds[0]] + ds.drop_first() =~= ds);
    }
}

/// Reading back one field: first its entry count, then exactly its
/// entries, leaving the given rest.
proof fn lemma_dec_field_enc(es: Seq<TermPostingsV>, rest: Seq<u8>)
    requires
        forall|i: int| 0 <= i < es.len() ==> bounded_entry(#[trigger] es[i]),
        es.len() <= usize::MAX,
    ensures
        dec_u64(enc_u64(es.len() as int) + enc_entries(es) + rest) == Some(
            (es.len() as int, enc_entries(es) + rest),
        ),
        dec_entries(enc_entries(es) + rest, es.len() as int) == Some((es, rest)),
{
    assert(enc_u64(es.len() as int) + enc_entries(es) + rest =~= enc_u64(es.len() as int) + (
    enc_entries(es) + rest));
    lemma_dec_u64_enc(es.len() as int, enc_entries(es) + rest);
    lemma_dec_entries_enc(es, rest);
}

/// Round trip: decoding an encoded snapshot gives back exactly that
/// snapshot. Together with the atomic commit at the storage layer, an
/// opened index is the index that was committed.
#[verifier::rlimit(100)]
#[verifier::spinoff_prover]
pub proof fn theorem_codec_roundtrip(iv: IndexV)
    requires
        bounded_index(iv),
    ensures
        decode_spec(encode_spec(iv)) == Some(iv),
{
    let empty = Seq::<u8>::empty();
    let f2 = enc_u64(iv.content_terms.len() as int) + enc_entries(iv.content_terms);
    let f1 = enc_u64(iv.title_terms.len() as int) + enc_entries(iv.title_terms) + f2;
    let t1 = enc_docs(iv.docs) + f1;
    assert(encode_spec(iv) =~= enc_u64(iv.docs.len() as int) + t1);
    lemma_dec_u64_enc(iv.docs.len() as int, t1);
    lemma_dec_docs_enc(iv.docs, f1);
    lemma_dec_field_enc(iv.title_terms, f2);
    assert(f2 =~= enc_u64(iv.content_terms.len() as int) + enc_entries(iv.content_terms) + empty);
    lemma_dec_field_enc(iv.content_terms, empty);
    assert(enc_entries(iv.content_terms) + empty =~= enc_entries(iv.content_terms));
    assert(IndexV {
        docs: iv.docs,
        title_terms: iv.title_terms,
        content_terms: iv.content_terms,
    } =~= iv);
}

} // verus!
// === Executable encoder and decoder ===

verus! {

/// The views of a bare position list.
pub open spec fn nums_view(xs: Seq<usize>) -> Seq<int> {
    xs.map_values(|x: usize| x as int)
}

/// The views of a bare postings list.
pub open spec fn postings_view(ps: Seq<Posting>) -> Seq<PostingV> {
    ps.map_values(|p: Posting| p@)
}

fn write_u64(out: &mut Vec<u8>, x: u64)
    ensures
        final(out)@ == old(out)@ + enc_u64(x as int),
{
    let mut b = u64_to_le_bytes(x);
    out.append(&mut b);
    proof {
        assert((x as int) as u64 == x);
    }
}

fn write_str(out: &mut Vec<u8>, s: &String)
    ensures
        final(out)@ == old(out)@ + enc_str(s@),
        bounded_str(s@),
{
    let ghost out0 = old(out)@;
    let mut bytes = s.as_str().as_bytes_vec();
    let ghost bv = bytes@;
    let n = bytes.len() as u64;
    write_u64(out, n);
    out.append(&mut bytes);
    proof {
        assert(bv == encode_utf8(s@));
        assert((n as int) == encode_utf8(s@).len());
        assert(out@ =~= out0 + enc_str(s@));
    }
}

fn write_nums(out: &mut Vec<u8>, xs: &Vec<usize>)
    ensures
        final(out)@ == old(out)@ + enc_nums(nums_view(xs@)),
{
    let ghost out0 = old(out)@;
    let ghost xv = nums_view(xs@);
    let mut i: usize = 0;
    proof {
        assert(xv.skip(0) =~= xv);
    }
    while i < xs.len()
        invariant
            xv == nums_view(xs@),
            i <= xs@.len(),
            out0 + enc_nums(xv) == out@ + enc_nums(xv.skip(i as int)),
        decreases xs@.len() - i,
    {
        let ghost pre = out@;
        write_u64(out, xs[i] as u64);
        proof {
            assert(xv.skip(i as int)[0] == xv[i as int]);
            assert(xv.skip(i as int).drop_first() =~= xv.skip(i as int + 1));
            assert(enc_nums(xv.skip(i as int)) == enc_u64(xv[i as int]) + enc_nums(
                xv.skip(i as int + 1),
            ));
            assert(out@ + enc_nums(xv.skip(i as int + 1)) =~= pre + enc_nums(xv.skip(i as int)));
        }
        i = i + 1;
    }
    proof {
        assert(xv.skip(xv.len() as int) =~= Seq::<int>::empty());
        assert(enc_nums(Seq::<int>::empty()) =~= Seq::<u8>::empty());
        assert(out@ + Seq::<u8>::empty() =~= out@);
    }
}

fn write_posting(out: &mut Vec<u8>, p: &Posting)
    ensures
        final(out)@ == old(out)@ + enc_posting(p@),
        bounded_posting(p@),
{
    let ghost out0 = old(out)@;
    write_u64(out, p.doc as u64);
    write_u64(out, p.tf as u64);
    write_u64(out, p.positions.len() as u64);
    write_nums(out, &p.positions);
    proof {
        assert(nums_view(p.positions@) =~= p@.positions);
        assert(out@ =~= out0 + enc_posting(p@));
        assert(forall|i: int|
            0 <= i < p@.positions.len() ==> #[trigger] p@.positions[i] == p.positions@[i] as int);
    }
}

fn write_postings(out: &mut Vec<u8>, ps: &Vec<Posting>)
    ensures
        final(out)@ == old(out)@ + enc_postings(postings_view(ps@)),
        forall|i: int| 0 <= i < ps@.len() ==> bounded_posting(#[trigger] postings_view(ps@)[i]),
{
    let ghost out0 = old(out)@;
    let ghost pv = postings_view(ps@);
    let mut i: usize = 0;
    proof {
        assert(pv.skip(0) =~= pv);
    }
    while i < ps.len()
        invariant
            pv == postings_view(ps@),
            i <= ps@.len(),
            out0 + enc_postings(pv) == out@ + enc_postings(pv.skip(i as int)),
            forall|j: int| 0 <= j < i ==> bounded_posting(#[trigger] pv[j]),
        decreases ps@.len() - i,
    {
        let ghost pre = out@;
        write_posting(out, &ps[i]);
        proof {
            assert(pv.skip(i as int)[0] == pv[i as int]);
            assert(pv[i as int] == ps@[i as int]@);
            assert(pv.skip(i as int).drop_first() =~= pv.skip(i as int + 1));
            assert(enc_postings(pv.skip(i as int)) == enc_posting(pv[i as int]) + enc_postings(
                pv.skip(i as int + 1),
            ));
            assert(out@ + enc_postings(pv.skip(i as int + 1)) =~= pre + enc_postings(
                pv.skip(i as int),
            ));
        }
        i = i + 1;
    }
    proof {
        assert(pv.skip(pv.len() as int) =~= Seq::<PostingV>::empty());
        assert(enc_postings(Seq::<PostingV>::empty()) =~= Seq::<u8>::empty());
        assert(out@ + Seq::<u8>::empty() =~= out@);
    }
}

fn write_entry(out: &mut Vec<u8>, e: &TermPostings)
    ensures
        final(out)@ == old(out)@ + enc_entry(e@),
        bounded_entry(e@),
{
    let ghost out0 = old(out)@;
    write_str(out, &e.term);
    write_u64(out, e.postings.len() as u64);
    write_postings(out, &e.postings);
    proof {
        assert(postings_view(e.postings@) =~= e@.postings);
        assert(out@ =~= out0 + enc_entry(e@));
    }
}

fn write_doc(out: &mut Vec<u8>, r: &ConversationRecord)
    ensures
        final(out)@ == old(out)@ + enc_doc(r@),
        bounded_doc(r@),
{
    let ghost out0 = old(out)@;
    write_str(out, &r.id);
    write_str(out, &r.title);
    write_str(out, &r.date);
    write_str(out, &r.content);
    proof {
        assert(out@ =~= out0 + enc_doc(r@));
    }
}

impl SearchIndex {
    /// Encodes the committed snapshot into its durable byte form,
    /// exactly [`encode_spec`] of its mathematical view.
    pub fn to_bytes(&self) -> (b: Vec<u8>)
        ensures
            b@ == encode_spec(self@),
            bounded_index(self@),
    {
        let ghost iv = self@;
        let mut out: Vec<u8> = Vec::new();
        let ndocs = self.docs.len();
        write_u64(&mut out, ndocs as u64);
        let mut i: usize = 0;
        proof {
            assert(iv.docs.skip(0) =~= iv.docs);
        }
        while i < self.docs.len()
            invariant
                iv == self@,
                i <= self.docs@.len(),
                enc_u64(iv.docs.len() as int) + enc_docs(iv.docs) == out@ + enc_docs(
                    iv.docs.skip(i as int),
                ),
                forall|j: int| 0 <= j < i ==> bounded_doc(#[trigger] iv.docs[j]),
            decreases self.docs@.len() - i,
        {
            let ghost pre = out@;
            write_doc(&mut out, &self.docs[i]);
            proof {
                assert(iv.docs.skip(i as int)[0] == iv.docs[i as int]);
                assert(iv.docs[i as int] == self.docs@[i as int]@);
                assert(iv.docs.skip(i as int).drop_first() =~= iv.docs.skip(i as int + 1));
                assert(enc_docs(iv.docs.skip(i as int)) == enc_doc(iv.docs[i as int]) + enc_docs(
                    iv.docs.skip(i as int + 1),
                ));
                assert(out@ + enc_docs(iv.docs.skip(i as int + 1)) =~= pre + enc_docs(
                    iv.docs.skip(i as int),
                ));
            }
            i = i + 1;
        }
        proof {
            assert(iv.docs.skip(iv.docs.len() as int) =~= Seq::<RecordV>::empty());
            assert(enc_docs(Seq::<RecordV>::empty()) =~= Seq::<u8>::empty());
            assert(out@ + Seq::<u8>::empty() =~= out@);
        }
        write_field(&mut out, &self.title_terms);
        proof {
            assert(terms_view_of(self.title_terms@) =~= iv.title_terms);
            assert forall|j: int|
                0 <= j < iv.title_terms.len() implies bounded_entry(
                #[trigger] iv.title_terms[j]) by {
                assert(bounded_entry(terms_view_of(self.title_terms@)[j]));
            }
        }
        write_field(&mut out, &self.content_terms);
        proof {
            assert(terms_view_of(self.content_terms@) =~= iv.content_terms);
            assert forall|j: int|
                0 <= j < iv.content_terms.len() implies bounded_entry(
                #[trigger] iv.content_terms[j]) by {
                assert(bounded_entry(terms_view_of(self.content_terms@)[j]));
            }
            assert(iv.docs.len() == self.docs@.len());
            assert(iv.title_terms.len() == self.title_terms@.len());
            assert(iv.content_terms.len() == self.content_terms@.len());
            assert(out@ =~= encode_spec(iv));
        }
        out
    }
}

/// The views of a bare dictionary vector.
pub open spec fn terms_view_of(es: Seq<TermPostings>) -> Seq<TermPostingsV> {
    es.map_values(|e: TermPostings| e@)
}

fn write_field(out: &mut Vec<u8>, es: &Vec<TermPostings>)
    ensures
        final(out)@ == old(out)@ + enc_u64(es@.len() as int) + enc_entries(terms_view_of(es@)),
        forall|i: int| 0 <= i < es@.len() ==> bounded_entry(#[trigger] terms_view_of(es@)[i]),
        es@.len() <= usize::MAX,
{
    let ghost out0 = old(out)@;
    let ghost ev = terms_view_of(es@);
    write_u64(out, es.len() as u64);
    let ghost mid = out@;
    let mut i: usize = 0;
    proof {
        assert(ev.skip(0) =~= ev);
    }
    while i < es.len()
        invariant
            ev == terms_view_of(es@),
            i <= es@.len(),
            mid + enc_entries(ev) == out@ + enc_entries(ev.skip(i as int)),
            forall|j: int| 0 <= j < i ==> bounded_entry(#[trigger] ev[j]),
        decreases es@.len() - i,
    {
        let ghost pre = out@;
        write_entry(out, &es[i]);
        proof {
            assert(ev.skip(i as int)[0] == ev[i as int]);
            assert(ev[i as int] == es@[i as int]@);
            assert(ev.skip(i as int).drop_first() =~= ev.skip(i as int + 1));
            assert(enc_entries(ev.skip(i as int)) == enc_entry(ev[i as int]) + enc_entries(
                ev.skip(i as int + 1),
            ));
            assert(out@ + enc_entries(ev.skip(i as int + 1)) =~= pre + enc_entries(
                ev.skip(i as int),
            ));
        }
        i = i + 1;
    }
    proof {
        assert(ev.skip(ev.len() as int) =~= Seq::<TermPostingsV>::empty());
        assert(enc_entries(Seq::<TermPostingsV>::empty()) =~= Seq::<u8>::empty());
        assert(out@ + Seq::<u8>::empty() =~= out@);
        assert(out@ =~= out0 + enc_u64(es@.len() as int) + enc_entries(ev));
    }
}

} // verus!
// === Executable decoder ===

verus! {

/// Relies on `str::from_utf8`: it succeeds exactly on valid UTF-8 input
/// and yields the characters those bytes encode.
#[verifier::external_body]
fn utf8_to_string(b: &[u8]) -> (r: Option<String>)
    ensures
        (r matches Some(s) ==> valid_utf8(b@) && s@ == decode_utf8(b@)),
        (r is None ==> !valid_utf8(b@)),
{
    match std::str::from_utf8(b) {
        Ok(s) => Some(s.to_string()),
        Err(_) => None,
    }
}

/// Copies `bytes[pos .. pos + n]` out as its own vector.
fn copy_range(bytes: &Vec<u8>, pos: usize, n: usize) -> (w: Vec<u8>)
    requires
        pos + n <= bytes@.len(),
    ensures
        w@ == bytes@.subrange(pos as int, pos as int + n as int),
{
    let blen = bytes.len();
    let mut w: Vec<u8> = Vec::new();
    let mut k: usize = 0;
    while k < n
        invariant
            blen == bytes@.len(),
            pos + n <= blen,
            k <= n,
            w@ == bytes@.subrange(pos as int, pos as int + k as int),
        decreases n - k,
    {
        w.push(bytes[pos + k]);
        proof {
            assert(bytes@.subrange(pos as int, pos as int + k as int + 1) =~= bytes@.subrange(
                pos as int,
                pos as int + k as int,
            ).push(bytes@[pos as int + k as int]));
        }
        k = k + 1;
    }
    w
}

fn read_u64(bytes: &Vec<u8>, pos: usize) -> (r: Option<(u64, usize)>)
    requires
        pos <= bytes@.len(),
    ensures
        (r matches Some(pair) ==> dec_u64(bytes@.skip(pos as int)) == Some(
            (pair.0 as int, bytes@.skip(pair.1 as int)),
        ) && pos < pair.1 <= bytes@.len()),
        (r is None ==> dec_u64(bytes@.skip(pos as int)) is None),
{
    let n = bytes.len();
    if n - pos < 8 {
        proof {
            assert(bytes@.skip(pos as int).len() < 8);
        }
        return None;
    }
    let w = copy_range(bytes, pos, 8);
    let x = u64_from_le_bytes(w.as_slice());
    proof {
        assert(w@ =~= bytes@.skip(pos as int).take(8));
        assert(bytes@.skip(pos as int).skip(8) =~= bytes@.skip(pos as int + 8));
        assert((x as int) as u64 == x);
    }
    Some((x, pos + 8))
}

fn read_str(bytes: &Vec<u8>, pos: usize) -> (r: Option<(String, usize)>)
    requires
        pos <= bytes@.len(),
    ensures
        (r matches Some(pair) ==> dec_str(bytes@.skip(pos as int)) == Some(
            (pair.0@, bytes@.skip(pair.1 as int)),
        ) && pos <= pair.1 <= bytes@.len()),
        (r is None ==> dec_str(bytes@.skip(pos as int)) is None),
{
    let (n64, p1) = match read_u64(bytes, pos) {
        Some(pair) => pair,
        None => {
            return None;
        },
    };
    let rem = bytes.len() - p1;
    if n64 > rem as u64 {
        proof {
            assert(bytes@.skip(p1 as int).len() < n64 as int);
        }
        return None;
    }
    let n = n64 as usize;
    proof {
        assert(n as int == n64 as int);
    }
    let w = copy_range(bytes, p1, n);
    proof {
        assert(w@ =~= bytes@.skip(p1 as int).take(n64 as int));
    }
    match utf8_to_string(w.as_slice()) {
        None => {
            proof {
                assert(!valid_utf8(bytes@.skip(p1 as int).take(n64 as int)));
            }
            None
        },
        Some(s) => {
            proof {
                assert(bytes@.skip(p1 as int).skip(n64 as int) =~= bytes@.skip(
                    p1 as int + n64 as int,
                ));
            }
            Some((s, p1 + n))
        },
    }
}

spec fn prepend_nums(x: Seq<int>, o: Option<(Seq<int>, Seq<u8>)>) -> Option<(Seq<int>, Seq<u8>)> {
    match o {
        None => None,
        Some((xs, r)) => Some((x + xs, r)),
    }
}

fn read_nums(bytes: &Vec<u8>, pos: usize, k: u64) -> (r: Option<(Vec<usize>, usize)>)
    requires
        pos <= bytes@.len(),
    ensures
        (r matches Some(pair) ==> dec_nums(bytes@.skip(pos as int), k as int) == Some(
            (nums_view(pair.0@), bytes@.skip(pair.1 as int)),
        ) && pos <= pair.1 <= bytes@.len()),
        (r is None ==> dec_nums(bytes@.skip(pos as int), k as int) is None),
{
    let mut v: Vec<usize> = Vec::new();
    let mut cur = pos;
    let mut i: u64 = 0;
    proof {
        assert(nums_view(v@) =~= Seq::<int>::empty());
        assert(dec_nums(bytes@.skip(pos as int), k as int) == prepend_nums(
            nums_view(v@),
            dec_nums(bytes@.skip(cur as int), k as int - i as int),
        )) by {
            match dec_nums(bytes@.skip(pos as int), k as int) {
                None => {},
                Some((xs, r)) => {
                    assert(Seq::<int>::empty() + xs =~= xs);
                },
            }
        }
    }
    while i < k
        invariant
            pos <= cur <= bytes@.len(),
            i <= k,
            dec_nums(bytes@.skip(pos as int), k as int) == prepend_nums(
                nums_view(v@),
                dec_nums(bytes@.skip(cur as int), k as int - i as int),
            ),
        decreases k - i,
    {
        match read_u64(bytes, cur) {
            None => {
                return None;
            },
            Some((x, p2)) => {
                if x > usize::MAX as u64 {
                    return None;
                }
                let ghost oldv = v@;
                v.push(x as usize);
                proof {
                    assert(nums_view(v@) =~= nums_view(oldv).push(x as int));
                    match dec_nums(bytes@.skip(p2 as int), k as int - i as int - 1) {
                        None => {},
                        Some((xs, r)) => {
                            assert(nums_view(oldv) + (seq![x as int] + xs) =~= nums_view(v@) + xs);
                        },
                    }
                }
                cur = p2;
                i = i + 1;
            },
        }
    }
    proof {
        assert(dec_nums(bytes@.skip(cur as int), 0) == Some(
            (Seq::<int>::empty(), bytes@.skip(cur as int)),
        ));
        assert(nums_view(v@) + Seq::<int>::empty() =~= nums_view(v@));
    }
    Some((v, cur))
}

fn read_posting(bytes: &Vec<u8>, pos: usize) -> (r: Option<(Posting, usize)>)
    requires
        pos <= bytes@.len(),
    ensures
        (r matches Some(pair) ==> dec_posting(bytes@.skip(pos as int)) == Some(
            (pair.0@, bytes@.skip(pair.1 as int)),
        ) && pos <= pair.1 <= bytes@.len()),
        (r is None ==> dec_posting(bytes@.skip(pos as int)) is None),
{
    let (doc64, p1) = match read_u64(bytes, pos) {
        Some(pair) => pair,
        None => {
            return None;
        },
    };
    if doc64 > usize::MAX as u64 {
        return None;
    }
    let (tf64, p2) = match read_u64(bytes, p1) {
        Some(pair) => pair,
        None => {
            return None;
        },
    };
    if tf64 > usize::MAX as u64 {
        return None;
    }
    let (npos, p3) = match read_u64(bytes, p2) {
        Some(pair) => pair,
        None => {
            return None;
        },
    };
    let (positions, p4) = match read_nums(bytes, p3, npos) {
        Some(pair) => pair,
        None => {
            return None;
        },
    };
    let posting = Posting { doc: doc64 as usize, tf: tf64 as usize, positions };
    proof {
        assert(posting@ =~= PostingV {
            doc: doc64 as int,
            tf: tf64 as int,
            positions: nums_view(posting.positions@),
        });
    }
    Some((posting, p4))
}

spec fn prepend_postings(x: Seq<PostingV>, o: Option<(Seq<PostingV>, Seq<u8>)>) -> Option<
    (Seq<PostingV>, Seq<u8>),
> {
    match o {
        None => None,
        Some((xs, r)) => Some((x + xs, r)),
    }
}

fn read_postings(bytes: &Vec<u8>, pos: usize, k: u64) -> (r: Option<(Vec<Posting>, usize)>)
    requires
        pos <= bytes@.len(),
    ensures
        (r matches Some(pair) ==> dec_postings(bytes@.skip(pos as int), k as int) == Some(
            (postings_view(pair.0@), bytes@.skip(pair.1 as int)),
        ) && pos <= pair.1 <= bytes@.len()),
        (r is None ==> dec_postings(bytes@.skip(pos as int), k as int) is None),
{
    let mut v: Vec<Posting> = Vec::new();
    let mut cur = pos;
    let mut i: u64 = 0;
    proof {
        assert(postings_view(v@) =~= Seq::<PostingV>::empty());
        assert(dec_postings(bytes@.skip(pos as int), k as int) == prepend_postings(
            postings_view(v@),
            dec_postings(bytes@.skip(cur as int), k as int - i as int),
        )) by {
            match dec_postings(bytes@.skip(pos as int), k as int) {
                None => {},
                Some((xs, r)) => {
                    assert(Seq::<PostingV>::empty() + xs =~= xs);
                },
            }
        }
    }
    while i < k
        invariant
            pos <= cur <= bytes@.len(),
            i <= k,
            dec_postings(bytes@.skip(pos as int), k as int) == prepend_postings(
                postings_view(v@),
                dec_postings(bytes@.skip(cur as int), k as int - i as int),
            ),
        decreases k - i,
    {
        match read_posting(bytes, cur) {
            None => {
                return None;
            },
            Some((p, p2)) => {
                let ghost oldv = v@;
                let ghost pv = p@;
                v.push(p);
                proof {
                    assert(postings_view(v@) =~= postings_view(oldv).push(pv));
                    match dec_postings(bytes@.skip(p2 as int), k as int - i as int - 1) {
                        None => {},
                        Some((xs, r)) => {
                            assert(postings_view(oldv) + (seq![pv] + xs) =~= postings_view(v@)
                                + xs);
                        },
                    }
                }
                cur = p2;
                i = i + 1;
            },
        }
    }
    proof {
        assert(dec_postings(bytes@.skip(cur as int), 0) == Some(
            (Seq::<PostingV>::empty(), bytes@.skip(cur as int)),
        ));
        assert(postings_view(v@) + Seq::<PostingV>::empty() =~= postings_view(v@));
    }
    Some((v, cur))
}

fn read_entry(bytes: &Vec<u8>, pos: usize) -> (r: Option<(TermPostings, usize)>)
    requires
        pos <= bytes@.len(),
    ensures
        (r matches Some(pair) ==> dec_entry(bytes@.skip(pos as int)) == Some(
            (pair.0@, bytes@.skip(pair.1 as int)),
        ) && pos <= pair.1 <= bytes@.len()),
        (r is None ==> dec_entry(bytes@.skip(pos as int)) is None),
{
    let (term, p1) = match read_str(bytes, pos) {
        Some(pair) => pair,
        None => {
            return None;
        },
    };
    let (kp, p2) = match read_u64(bytes, p1) {
        Some(pair) => pair,
        None => {
            return None;
        },
    };
    let (postings, p3) = match read_postings(bytes, p2, kp) {
        Some(pair) => pair,
        None => {
            return None;
        },
    };
    let entry = TermPostings { term, postings };
    proof {
        assert(entry@ =~= TermPostingsV {
            term: entry.term@,
            postings: postings_view(entry.postings@),
        });
    }
    Some((entry, p3))
}

spec fn prepend_entries(x: Seq<TermPostingsV>, o: Option<(Seq<TermPostingsV>, Seq<u8>)>) -> Option<
    (Seq<TermPostingsV>, Seq<u8>),
> {
    match o {
        None => None,
        Some((xs, r)) => Some((x + xs, r)),
    }
}

fn read_entries(bytes: &Vec<u8>, pos: usize, k: u64) -> (r: Option<(Vec<TermPostings>, usize)>)
    requires
        pos <= bytes@.len(),
    ensures
        (r matches Some(pair) ==> dec_entries(bytes@.skip(pos as int), k as int) == Some(
            (terms_view_of(pair.0@), bytes@.skip(pair.1 as int)),
        ) && pos <= pair.1 <= bytes@.len()),
        (r is None ==> dec_entries(bytes@.skip(pos as int), k as int) is None),
{
    let mut v: Vec<TermPostings> = Vec::new();
    let mut cur = pos;
    let mut i: u64 = 0;
    proof {
        assert(terms_view_of(v@) =~= Seq::<TermPostingsV>::empty());
        assert(dec_entries(bytes@.skip(pos as int), k as int) == prepend_entries(
            terms_view_of(v@),
            dec_entries(bytes@.skip(cur as int), k as int - i as int),
        )) by {
            match dec_entries(bytes@.skip(pos as int), k as int) {
                None => {},
                Some((xs, r)) => {
                    assert(Seq::<TermPostingsV>::empty() + xs =~= xs);
                },
            }
        }
    }
    while i < k
        invariant
            pos <= cur <= bytes@.len(),
            i <= k,
            dec_entries(bytes@.skip(pos as int), k as int) == prepend_entries(
                terms_view_of(v@),
                dec_entries(bytes@.skip(cur as int), k as int - i as int),
            ),
        decreases k - i,
    {
        match read_entry(bytes, cur) {
            None => {
                return None;
            },
            Some((e, p2)) => {
                let ghost oldv = v@;
                let ghost ev = e@;
                v.push(e);
                proof {
                    assert(terms_view_of(v@) =~= terms_view_of(oldv).push(ev));
                    match dec_entries(bytes@.skip(p2 as int), k as int - i as int - 1) {
                        None => {},
                        Some((xs, r)) => {
                            assert(terms_view_of(oldv) + (seq![ev] + xs) =~= terms_view_of(v@)
                                + xs);
                        },
                    }
                }
                cur = p2;
                i = i + 1;
            },
        }
    }
    proof {
        assert(dec_entries(bytes@.skip(cur as int), 0) == Some(
            (Seq::<TermPostingsV>::empty(), bytes@.skip(cur as int)),
        ));
        assert(terms_view_of(v@) + Seq::<TermPostingsV>::empty() =~= terms_view_of(v@));
    }
    Some((v, cur))
}

fn read_doc(bytes: &Vec<u8>, pos: usize) -> (r: Option<(ConversationRecord, usize)>)
    requires
        pos <= bytes@.len(),
    ensures
        (r matches Some(pair) ==> dec_doc(bytes@.skip(pos as int)) == Some(
            (pair.0@, bytes@.skip(pair.1 as int)),
        ) && pos <= pair.1 <= bytes@.len()),
        (r is None ==> dec_doc(bytes@.skip(pos as int)) is None),
{
    let (id, p1) = match read_str(bytes, pos) {
        Some(pair) => pair,
        None => {
            return None;
        },
    };
    let (title, p2) = match read_str(bytes, p1) {
        Some(pair) => pair,
        None => {
            return None;
        },
    };
    let (date, p3) = match read_str(bytes, p2) {
        Some(pair) => pair,
        None => {
            return None;
        },
    };
    let (content, p4) = match read_str(bytes, p3) {
        Some(pair) => pair,
        None => {
            return None;
        },
    };
    let rec = ConversationRecord { id, title, date, content };
    proof {
        assert(rec@ =~= RecordV {
            id: rec.id@,
            title: rec.title@,
            date: rec.date@,
            content: rec.content@,
        });
    }
    Some((rec, p4))
}

spec fn prepend_docs(x: Seq<RecordV>, o: Option<(Seq<RecordV>, Seq<u8>)>) -> Option<
    (Seq<RecordV>, Seq<u8>),
> {
    match o {
        None => None,
        Some((xs, r)) => Some((x + xs, r)),
    }
}

fn read_docs(bytes: &Vec<u8>, pos: usize, k: u64) -> (r: Option<(Vec<ConversationRecord>, usize)>)
    requires
        pos <= bytes@.len(),
    ensures
        (r matches Some(pair) ==> dec_docs(bytes@.skip(pos as int), k as int) == Some(
            (crate::index::recs_view(pair.0@), bytes@.skip(pair.1 as int)),
        ) && pos <= pair.1 <= bytes@.len()),
        (r is None ==> dec_docs(bytes@.skip(pos as int), k as int) is None),
{
    let mut v: Vec<ConversationRecord> = Vec::new();
    let mut cur = pos;
    let mut i: u64 = 0;
    proof {
        assert(crate::index::recs_view(v@) =~= Seq::<RecordV>::empty());
        assert(dec_docs(bytes@.skip(pos as int), k as int) == prepend_docs(
            crate::index::recs_view(v@),
            dec_docs(bytes@.skip(cur as int), k as int - i as int),
        )) by {
            match dec_docs(bytes@.skip(pos as int), k as int) {
                None => {},
                Some((xs, r)) => {
                    assert(Seq::<RecordV>::empty() + xs =~= xs);
                },
            }
        }
    }
    while i < k
        invariant
            pos <= cur <= bytes@.len(),
            i <= k,
            dec_docs(bytes@.skip(pos as int), k as int) == prepend_docs(
                crate::index::recs_view(v@),
                dec_docs(bytes@.skip(cur as int), k as int - i as int),
            ),
        decreases k - i,
    {
        match read_doc(bytes, cur) {
            None => {
                return None;
            },
            Some((d, p2)) => {
                let ghost oldv = v@;
                let ghost dv = d@;
                v.push(d);
                proof {
                    assert(crate::index::recs_view(v@) =~= crate::index::recs_view(oldv).push(dv));
                    match dec_docs(bytes@.skip(p2 as int), k as int - i as int - 1) {
                        None => {},
                        Some((xs, r)) => {
                            assert(crate::index::recs_view(oldv) + (seq![dv] + xs)
                                =~= crate::index::recs_view(v@) + xs);
                        },
                    }
                }
                cur = p2;
                i = i + 1;
            },
        }
    }
    proof {
        assert(dec_docs(bytes@.skip(cur as int), 0) == Some(
            (Seq::<RecordV>::empty(), bytes@.skip(cur as int)),
        ));
        assert(crate::index::recs_view(v@) + Seq::<RecordV>::empty() =~= crate::index::recs_view(
            v@,
        ));
    }
    Some((v, cur))
}

impl SearchIndex {
    /// Decodes a stored snapshot. The result is `Ok` exactly when the
    /// bytes are one well-formed encoding with nothing left over, and
    /// then holds the encoded snapshot; anything else is refused as
    /// [`IndexError::IndexCorrupt`].
    pub fn from_bytes(bytes: &Vec<u8>) -> (r: Result<SearchIndex, IndexError>)
        ensures
            (r matches Ok(idx) ==> decode_spec(bytes@) == Some(idx@)),
            (r is Err ==> decode_spec(bytes@) is None && r == Result::<
                SearchIndex,
                IndexError,
            >::Err(IndexError::IndexCorrupt)),
    {
        proof {
            assert(bytes@.skip(0) =~= bytes@);
        }
        let (nd, p1) = match read_u64(bytes, 0) {
            Some(pair) => pair,
            None => {
                return Err(IndexError::IndexCorrupt);
            },
        };
        let (docs, p2) = match read_docs(bytes, p1, nd) {
            Some(pair) => pair,
            None => {
                return Err(IndexError::IndexCorrupt);
            },
        };
        let (nt, p3) = match read_u64(bytes, p2) {
            Some(pair) => pair,
            None => {
                return Err(IndexError::IndexCorrupt);
            },
        };
        let (title_terms, p4) = match read_entries(bytes, p3, nt) {
            Some(pair) => pair,
            None => {
                return Err(IndexError::IndexCorrupt);
            },
        };
        let (nc, p5) = match read_u64(bytes, p4) {
            Some(pair) => pair,
            None => {
                return Err(IndexError::IndexCorrupt);
            },
        };
        let (content_terms, p6) = match read_entries(bytes, p5, nc) {
            Some(pair) => pair,
            None => {
                return Err(IndexError::IndexCorrupt);
            },
        };
        if p6 != bytes.len() {
            proof {
                assert(bytes@.skip(p6 as int).len() > 0);
            }
            return Err(IndexError::IndexCorrupt);
        }
        let idx = SearchIndex { docs, title_terms, content_terms };
        proof {
            assert(bytes@.skip(p6 as int).len() == 0);
            assert(idx@ =~= IndexV {
                docs: crate::index::recs_view(idx.docs@),
                title_terms: terms_view_of(idx.title_terms@),
                content_terms: terms_view_of(idx.content_terms@),
            });
        }
        Ok(idx)
    }
}

} // verus!
