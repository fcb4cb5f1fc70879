//! The two weights of a term: how large a part of a document it is, and how
//! rare it is in the corpus. Both are kept exact, as pairs of integers.

use crate::freq::TermFreq;
use crate::index::{
    document_count, lemma_document_count_all, lemma_document_count_none, Document, TermFreqIndex,
};
use vstd::prelude::*;

verus! {

/// The fraction `numerator / denominator`. The denominator is never zero
/// in a fraction that this library hands out.
#[derive(Clone, Copy, Debug, PartialEq, Eq, Structural)]
pub struct Ratio {
    pub numerator: usize,
    pub denominator: usize,
}

/// The decimal logarithm of `numerator / denominator`, held as the two
/// integers. The denominator is never zero in a value that this library
/// hands out.
#[derive(Clone, Copy, Debug, PartialEq, Eq, Structural)]
pub struct LogRatio {
    pub numerator: usize,
    pub denominator: usize,
}

/// How often `term` occurs according to `counts`; zero if it is not there.
pub open spec fn term_count(counts: Map<Seq<char>, nat>, term: Seq<char>) -> nat {
    if counts.contains_key(term) {
        counts[term]
    } else {
        0
    }
}

/// `r` is the term frequency of `term` in `document`: the count of the term
/// over the number of tokens, and zero over one for a document without
/// tokens.
pub open spec fn is_tf(r: Ratio, document: &TermFreq, term: Seq<char>) -> bool {
    if document@.total == 0 {
        r.numerator == 0 && r.denominator == 1
    } else {
        r.numerator == term_count(document@.counts, term) && r.denominator == document@.total
    }
}

/// The denominator under the logarithm: the number of documents that hold
/// the term, and one if there is none.
pub open spec fn idf_denominator(holding: nat) -> nat {
    if holding == 0 {
        1
    } else {
        holding
    }
}

/// `r` is the inverse document frequency of `term` in `documents`: the
/// logarithm of the number of documents over the number of those that hold
/// the term, the latter raised to one if it is zero.
pub open spec fn is_idf(r: LogRatio, documents: Seq<Document>, term: Seq<char>) -> bool {
    &&& r.numerator == documents.len()
    &&& r.denominator == idf_denominator(document_count(documents, term))
}

/// The term frequency of `term` in `document`, as an exact fraction.
pub fn tf(term: &str, document: &TermFreq) -> (r: Ratio)
    ensures
        is_tf(r, document, term@),
        r.denominator > 0,
        r.numerator <= r.denominator,
        r.numerator > 0 <==> document@.counts.contains_key(term@),
{
    let total = document.total();
    let count = document.count(term);
    if total == 0 {
        Ratio { numerator: 0, denominator: 1 }
    } else {
        Ratio { numerator: count, denominator: total }
    }
}

/// The inverse document frequency of `term` in `tf_index`, as the exact
/// fraction under the logarithm.
pub fn idf(term: &str, tf_index: &TermFreqIndex) -> (r: LogRatio)
    ensures
        is_idf(r, tf_index.documents(), term@),
        r.denominator > 0,
        tf_index.documents().len() > 0 ==> r.denominator <= r.numerator,
{
    let holding = tf_index.document_frequency(term);
    LogRatio { numerator: tf_index.len(), denominator: if holding == 0 {
        1
    } else {
        holding
    } }
}

/// In a corpus of a given size, a term that more documents hold has no
/// larger a fraction under the logarithm, so no larger a weight.
pub proof fn lemma_idf_falls_as_frequency_rises(size: nat, fewer: nat, more: nat)
    requires
        fewer <= more,
    ensures
        size * idf_denominator(fewer) <= size * idf_denominator(more),
        idf_denominator(fewer) <= idf_denominator(more),
{
    assert(size * idf_denominator(fewer) <= size * idf_denominator(more)) by (nonlinear_arith)
        requires
            idf_denominator(fewer) <= idf_denominator(more),
    ;
}

/// A term that every document holds has the fraction one under the
/// logarithm, that is the weight zero.
pub proof fn lemma_idf_of_term_in_every_document(
    r: LogRatio,
    documents: Seq<Document>,
    term: Seq<char>,
)
    requires
        is_idf(r, documents, term),
        documents.len() > 0,
        forall|i: int| 0 <= i < documents.len() ==> (#[trigger] documents[i]).table@.counts.contains_key(term),
    ensures
        r.numerator == r.denominator,
{
    lemma_document_count_all(documents, term);
}

/// A term that no document holds has the number of documents over one
/// under the logarithm.
pub proof fn lemma_idf_of_term_in_no_document(
    r: LogRatio,
    documents: Seq<Document>,
    term: Seq<char>,
)
    requires
        is_idf(r, documents, term),
        forall|i: int|
            0 <= i < documents.len() ==> !(#[trigger] documents[i]).table@.counts.contains_key(term),
    ensures
        r.numerator == documents.len(),
        r.denominator == 1,
{
    lemma_document_count_none(documents, term);
}

} // verus!
