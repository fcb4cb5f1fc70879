//! Ranking the documents of an index for a query.
//!
//! The score of a document is the sum, over the tokens of the query, of a
//! term frequency times an inverse document frequency. The library hands
//! out each product exactly, as its two factors; what turns them into a
//! number that can be compared is given by the caller.

use crate::index::{Document, TermFreqIndex};
use crate::lexer::{texts, tokenize, tokens};
use crate::rank::{lemma_ranks_once, names, rank, ranks, stands_before};
use crate::score::{idf, is_idf, is_tf, tf, LogRatio, Ratio};
use vstd::prelude::*;

verus! {

/// What one token of the query adds to the score of one document: the
/// product of `tf` and `idf`.
#[derive(Clone, Copy, Debug, PartialEq, Eq, Structural)]
pub struct Weight {
    pub tf: Ratio,
    pub idf: LogRatio,
}

/// A document in a ranking: where it stands in the index, and its sort key.
#[derive(Clone, Copy, Debug, PartialEq, Eq, Structural)]
pub struct Hit {
    pub document: usize,
    pub key: u64,
}

/// `weights` is the score of document number `d` for the query: one weight
/// for each token, in the order of the query, a repeated token repeated.
pub open spec fn scores(
    weights: Seq<Weight>,
    documents: Seq<Document>,
    query: Seq<Seq<char>>,
    d: int,
) -> bool {
    &&& weights.len() == query.len()
    &&& forall|j: int|
        0 <= j < weights.len() ==> is_tf((#[trigger] weights[j]).tf, &documents[d].table, query[j])
            && is_idf(weights[j].idf, documents, query[j])
}

/// The score of each document of the index for the tokens `query`, in the
/// order of the index.
pub fn score_terms(tf_index: &TermFreqIndex, query: &Vec<String>) -> (table: Vec<Vec<Weight>>)
    ensures
        table@.len() == tf_index.documents().len(),
        forall|d: int|
            0 <= d < table@.len() ==> scores(
                (#[trigger] table@[d])@,
                tf_index.documents(),
                texts(query@),
                d,
            ),
{
    let documents = tf_index.entries();
    let mut rarity: Vec<LogRatio> = Vec::new();
    let mut j: usize = 0;
    while j < query.len()
        invariant
            j <= query@.len(),
            rarity@.len() == j,
            forall|i: int|
                0 <= i < j ==> is_idf(#[trigger] rarity@[i], tf_index.documents(), query@[i]@),
        decreases query@.len() - j,
    {
        rarity.push(idf(query[j].as_str(), tf_index));
        j += 1;
    }
    let mut table: Vec<Vec<Weight>> = Vec::new();
    let mut d: usize = 0;
    while d < documents.len()
        invariant
            d <= documents@.len(),
            documents@ == tf_index.documents(),
            table@.len() == d,
            rarity@.len() == query@.len(),
            forall|i: int|
                0 <= i < query@.len() ==> is_idf(
                    #[trigger] rarity@[i],
                    tf_index.documents(),
                    query@[i]@,
                ),
            forall|e: int|
                0 <= e < d ==> scores(
                    (#[trigger] table@[e])@,
                    tf_index.documents(),
                    texts(query@),
                    e,
                ),
        decreases documents@.len() - d,
    {
        let mut weights: Vec<Weight> = Vec::new();
        let mut j: usize = 0;
        while j < query.len()
            invariant
                j <= query@.len(),
                d < documents@.len(),
                documents@ == tf_index.documents(),
                weights@.len() == j,
                rarity@.len() == query@.len(),
                forall|i: int|
                    0 <= i < query@.len() ==> is_idf(
                        #[trigger] rarity@[i],
                        tf_index.documents(),
                        query@[i]@,
                    ),
                forall|i: int|
                    0 <= i < j ==> is_tf(
                        (#[trigger] weights@[i]).tf,
                        &documents@[d as int].table,
                        query@[i]@,
                    ) && is_idf(weights@[i].idf, tf_index.documents(), query@[i]@),
            decreases query@.len() - j,
        {
            weights.push(Weight { tf: tf(query[j].as_str(), &documents[d].table), idf: rarity[j] });
            j += 1;
        }
        assert(scores(weights@, tf_index.documents(), texts(query@), d as int));
        table.push(weights);
        d += 1;
    }
    table
}

/// `hits` ranks the documents of the index for `query`: each document
/// stands in it once; its key is what `evaluate` made of its score; a
/// larger key stands first, and of equal keys the one that comes first in
/// the index.
pub open spec fn is_ranking<F: Fn(&Vec<Weight>) -> u64>(
    hits: Seq<Hit>,
    documents: Seq<Document>,
    query: Seq<Seq<char>>,
    evaluate: F,
) -> bool {
    &&& hits.len() == documents.len()
    &&& forall|i: int| 0 <= i < hits.len() ==> (#[trigger] hits[i]).document < documents.len()
    &&& forall|d: int| 0 <= d < documents.len() ==> #[trigger] lists(hits, d)
    &&& forall|i: int, j: int|
        0 <= i < j < hits.len() ==> (#[trigger] hits[i]).document != (#[trigger] hits[j]).document
    &&& forall|i: int, j: int|
        0 <= i < j < hits.len() ==> (#[trigger] hits[i]).key > (#[trigger] hits[j]).key || (
        hits[i].key == hits[j].key && hits[i].document < hits[j].document)
    &&& forall|i: int| 0 <= i < hits.len() ==> #[trigger] keyed(hits[i], documents, query, evaluate)
}

/// Document `d` stands somewhere in `hits`.
pub open spec fn lists(hits: Seq<Hit>, d: int) -> bool {
    exists|i: int| 0 <= i < hits.len() && (#[trigger] hits[i]).document == d
}

/// The key of `hit` is a result of `evaluate` on the score of its document.
pub open spec fn keyed<F: Fn(&Vec<Weight>) -> u64>(
    hit: Hit,
    documents: Seq<Document>,
    query: Seq<Seq<char>>,
    evaluate: F,
) -> bool {
    exists|weights: Vec<Weight>|
        #[trigger] scores(weights@, documents, query, hit.document as int) && call_ensures(
            evaluate,
            (&weights,),
            hit.key,
        )
}

/// Ranks the documents of the index for a query. The query is tokenized;
/// `evaluate` turns the score of each document into its sort key.
pub fn search_query<F: Fn(&Vec<Weight>) -> u64>(
    tf_index: &TermFreqIndex,
    query: &[char],
    evaluate: F,
) -> (hits: Vec<Hit>)
    requires
        forall|weights: Vec<Weight>| call_requires(evaluate, (&weights,)),
    ensures
        is_ranking(hits@, tf_index.documents(), tokens(query@), evaluate),
{
    let terms = tokenize(query);
    let table = score_terms(tf_index, &terms);
    let ghost documents = tf_index.documents();
    let ghost words = tokens(query@);
    let mut keys: Vec<u64> = Vec::new();
    let mut d: usize = 0;
    while d < table.len()
        invariant
            d <= table@.len(),
            keys@.len() == d,
            forall|weights: Vec<Weight>| call_requires(evaluate, (&weights,)),
            forall|e: int| 0 <= e < table@.len() ==> scores((#[trigger] table@[e])@, documents, words, e),
            forall|e: int|
                0 <= e < d ==> #[trigger] keyed(
                    Hit { document: e as usize, key: keys@[e] },
                    documents,
                    words,
                    evaluate,
                ),
        decreases table@.len() - d,
    {
        let key = evaluate(&table[d]);
        proof {
            let weights = table@[d as int];
            let hit = Hit { document: d, key };
            assert(call_ensures(evaluate, (&weights,), key));
            assert(scores(weights@, documents, words, hit.document as int));
            assert(keyed(hit, documents, words, evaluate));
        }
        keys.push(key);
        d += 1;
    }
    let order = rank(&keys);
    let mut hits: Vec<Hit> = Vec::new();
    let mut i: usize = 0;
    while i < order.len()
        invariant
            i <= order@.len(),
            hits@.len() == i,
            ranks(keys@, order@, keys@.len() as int),
            forall|k: int|
                0 <= k < i ==> (#[trigger] hits@[k]).document == order@[k] && hits@[k].key
                    == keys@[order@[k] as int],
        decreases order@.len() - i,
    {
        hits.push(Hit { document: order[i], key: keys[order[i]] });
        i += 1;
    }
    proof {
        assert forall|e: int| 0 <= e < documents.len() implies #[trigger] lists(hits@, e) by {
            assert(names(order@, e));
            let k = choose|k: int| 0 <= k < order@.len() && #[trigger] order@[k] == e;
            assert(hits@[k].document == e);
        }
        assert forall|a: int, b: int| 0 <= a < b < hits@.len() implies (#[trigger] hits@[a]).key > (
        #[trigger] hits@[b]).key || (hits@[a].key == hits@[b].key && hits@[a].document
            < hits@[b].document) by {
            assert(stands_before(keys@, order@[a] as int, order@[b] as int));
        }
        lemma_ranks_once(keys@, order@, keys@.len() as int);
        assert forall|a: int, b: int| 0 <= a < b < hits@.len() implies (#[trigger] hits@[a]).document
            != (#[trigger] hits@[b]).document by {
            assert(order@[a] != order@[b]);
        }
        assert forall|k: int| 0 <= k < hits@.len() implies #[trigger] keyed(
            hits@[k],
            documents,
            words,
            evaluate,
        ) by {
            let e = order@[k] as int;
            assert(keyed(Hit { document: e as usize, key: keys@[e] }, documents, words, evaluate));
            assert(hits@[k] == Hit { document: e as usize, key: keys@[e] });
        }
    }
    hits
}

} // verus!
