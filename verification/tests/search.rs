use termrank::index::{build_index, Source, TermFreqIndex};
use termrank::lexer::tokenize;
use termrank::rank::rank;
use termrank::search::{score_terms, search_query, Hit, Weight};

fn source(path: &str, text: &str) -> Source {
    Source { path: path.to_string(), text: Some(text.to_string()) }
}

fn corpus() -> TermFreqIndex {
    build_index(&vec![
        source("doc1", "the cat sat"),
        source("doc2", "the dog sat on the mat"),
        source("doc3", "cats and dogs"),
    ])
}

fn chars(text: &str) -> Vec<char> {
    text.chars().collect()
}

fn value(weights: &Vec<Weight>) -> f32 {
    let mut rank = 0f32;
    for w in weights {
        let tf = w.tf.numerator as f32 / w.tf.denominator as f32;
        let idf = (w.idf.numerator as f32 / w.idf.denominator as f32).log10();
        rank += tf * idf;
    }
    rank
}

fn key(weights: &Vec<Weight>) -> u64 {
    value(weights).to_bits() as u64
}

fn score(hit: &Hit) -> f32 {
    f32::from_bits(hit.key as u32)
}

#[test]
fn rank_orders_by_falling_key() {
    assert_eq!(rank(&vec![]), Vec::<usize>::new());
    assert_eq!(rank(&vec![7]), vec![0]);
    assert_eq!(rank(&vec![1, 3, 2]), vec![1, 2, 0]);
    assert_eq!(rank(&vec![5, 9, 0, 9, 5, 1]), vec![1, 3, 0, 4, 5, 2]);
    assert_eq!(rank(&vec![u64::MAX, 0, u64::MAX]), vec![0, 2, 1]);
}

#[test]
fn rank_keeps_index_order_among_equal_keys() {
    assert_eq!(rank(&vec![4, 4, 4, 4]), vec![0, 1, 2, 3]);
    assert_eq!(rank(&vec![0, 0, 1, 0]), vec![2, 0, 1, 3]);
}

#[test]
fn rank_names_each_document_once() {
    let keys: Vec<u64> = (0..200u64).map(|i| (i * 7919) % 31).collect();
    let order = rank(&keys);
    assert_eq!(order.len(), keys.len());
    let mut seen = vec![false; keys.len()];
    for d in &order {
        assert!(!seen[*d]);
        seen[*d] = true;
    }
    assert!(seen.iter().all(|s| *s));
    for pair in order.windows(2) {
        assert!(keys[pair[0]] > keys[pair[1]] || (keys[pair[0]] == keys[pair[1]] && pair[0] < pair[1]));
    }
}

#[test]
fn score_terms_of_cat_dog() {
    let index = corpus();
    let table = score_terms(&index, &tokenize(&chars("cat dog")));
    assert_eq!(table.len(), 3);
    let shape: Vec<Vec<(usize, usize, usize, usize)>> = table
        .iter()
        .map(|weights| {
            weights
                .iter()
                .map(|w| (w.tf.numerator, w.tf.denominator, w.idf.numerator, w.idf.denominator))
                .collect()
        })
        .collect();
    assert_eq!(
        shape,
        vec![
            vec![(1, 3, 3, 1), (0, 3, 3, 1)],
            vec![(0, 6, 3, 1), (1, 6, 3, 1)],
            vec![(0, 3, 3, 1), (0, 3, 3, 1)],
        ]
    );
}

#[test]
fn cat_dog_ranks_doc1_doc2_doc3() {
    let index = corpus();
    let hits = search_query(&index, &chars("cat dog"), key);
    let order: Vec<&str> =
        hits.iter().map(|hit| index.entries()[hit.document].path.as_str()).collect();
    assert_eq!(order, vec!["doc1", "doc2", "doc3"]);
    assert!((score(&hits[0]) - 0.1590).abs() < 1e-4);
    assert!((score(&hits[1]) - 0.0795).abs() < 1e-4);
    assert_eq!(score(&hits[2]), 0.0);
}

#[test]
fn repeated_query_token_counts_twice() {
    let index = corpus();
    let once = search_query(&index, &chars("cat"), key);
    let twice = search_query(&index, &chars("cat cat"), key);
    assert_eq!(once[0].document, 0);
    assert_eq!(twice[0].document, 0);
    assert!((score(&twice[0]) - 2.0 * score(&once[0])).abs() < 1e-6);
    let table = score_terms(&index, &tokenize(&chars("cat cat")));
    assert_eq!(table[0].len(), 2);
    assert_eq!(table[0][0], table[0][1]);
}

#[test]
fn empty_index_gives_empty_ranking() {
    let index = TermFreqIndex::new();
    assert_eq!(search_query(&index, &chars("cat dog"), key), Vec::<Hit>::new());
    assert_eq!(score_terms(&index, &tokenize(&chars("cat"))).len(), 0);
}

#[test]
fn empty_query_scores_every_document_zero() {
    let index = corpus();
    for query in ["", "   \n"] {
        let hits = search_query(&index, &chars(query), key);
        let order: Vec<usize> = hits.iter().map(|hit| hit.document).collect();
        assert_eq!(order, vec![0, 1, 2]);
        assert!(hits.iter().all(|hit| score(hit) == 0.0));
    }
}

#[test]
fn ranking_covers_the_index_in_falling_order() {
    let index = build_index(&vec![
        source("a", "red green blue"),
        source("b", ""),
        source("c", "red red red"),
        source("d", "green 12 blue blue"),
        source("e", "yellow"),
        source("f", "red, green; blue."),
    ]);
    for query in ["red", "blue green", "12 yellow red", "nothing here", "RED red Red"] {
        let hits = search_query(&index, &chars(query), key);
        assert_eq!(hits.len(), index.len());
        let mut seen = vec![false; index.len()];
        for hit in &hits {
            assert!(!seen[hit.document]);
            seen[hit.document] = true;
        }
        assert!(seen.iter().all(|s| *s));
        for pair in hits.windows(2) {
            assert!(score(&pair[0]) >= score(&pair[1]));
            assert!(pair[0].key > pair[1].key || pair[0].document < pair[1].document);
        }
    }
}

#[test]
fn key_is_what_evaluate_returns() {
    let index = corpus();
    let hits = search_query(&index, &chars("the"), |weights: &Vec<Weight>| {
        weights.iter().map(|w| w.tf.numerator as u64).sum()
    });
    assert_eq!(
        hits,
        vec![
            Hit { document: 1, key: 2 },
            Hit { document: 0, key: 1 },
            Hit { document: 2, key: 0 },
        ]
    );
}
