use text_retrieval::indexing::{
    create_index_simple, create_index_spimi, spimi_invert, to_bag_of_words, IndexBuild,
    IndexEntry, TokenEntry,
};
use text_retrieval::stats::{write_documents_stats, StatsMap};
use text_retrieval::tokenization::Token;
use text_retrieval::writer::{render_index, write_index_entry};

fn tok(doc_id: &str, term: &str, num: usize) -> Token {
    Token { doc_id: doc_id.to_string(), term: term.to_string(), num_documents_processed: num }
}

fn example_tokens() -> Vec<Token> {
    vec![tok("d1", "cat", 0), tok("d1", "dog", 0), tok("d2", "cat", 1), tok("d1", "cat", 0)]
}

fn entry_pairs(e: &IndexEntry) -> (String, Vec<(String, usize)>) {
    (e.term.clone(), e.postings.clone())
}

fn sorted_postings(e: &IndexEntry) -> Vec<(String, usize)> {
    let mut p = e.postings.clone();
    p.sort();
    p
}

#[test]
fn end_to_end_example() {
    let tokens = example_tokens();
    let simple = create_index_simple(&tokens);
    assert_eq!(simple.document_count, 2);
    let rendered = render_index(simple.document_count, &simple.entries);
    assert_eq!(rendered, "2\ncat\t2\td1|2,d2|1\ndog\t1\td1|1\n");
    assert_eq!(simple.terms_counter.get(&"d1".to_string()), Some(2));
    assert_eq!(simple.terms_counter.get(&"d2".to_string()), Some(1));
    assert_eq!(simple.length_counter.get(&"d1".to_string()), Some(3));
    assert_eq!(simple.length_counter.get(&"d2".to_string()), Some(1));

    let blocked = create_index_spimi(&tokens, 2);
    assert_eq!(blocked.document_count, 2);
    let rendered2 = render_index(blocked.document_count, &blocked.entries);
    assert_eq!(rendered2, "2\ncat\t2\td1|2,d2|1\ndog\t1\td1|1\n");
    assert_eq!(blocked.length_counter.get(&"d1".to_string()), Some(3));
    assert_eq!(blocked.length_counter.get(&"d2".to_string()), Some(1));
}

#[test]
fn empty_input() {
    let tokens: Vec<Token> = vec![];
    let simple = create_index_simple(&tokens);
    assert_eq!(simple.document_count, 0);
    assert_eq!(simple.entries.len(), 0);
    assert_eq!(render_index(simple.document_count, &simple.entries), "0\n");
    assert_eq!(simple.terms_counter.count(), 0);
    assert_eq!(simple.length_counter.count(), 0);
    let blocked = create_index_spimi(&tokens, 1);
    assert_eq!(blocked.document_count, 0);
    assert_eq!(blocked.entries.len(), 0);
    assert_eq!(render_index(blocked.document_count, &blocked.entries), "0\n");
    let json = write_documents_stats(&simple.terms_counter, &simple.length_counter);
    assert_eq!(json, "{\"length\":{},\"terms\":{}}");
}

#[test]
fn cross_block_aggregation() {
    // five occurrences of one term in one document, split three before the
    // block boundary and two after: one merged posting, not two
    let tokens = vec![
        tok("doc", "t", 0),
        tok("doc", "t", 0),
        tok("doc", "t", 0),
        tok("doc", "t", 0),
        tok("doc", "t", 0),
    ];
    let blocked = create_index_spimi(&tokens, 3);
    assert_eq!(blocked.entries.len(), 1);
    assert_eq!(blocked.entries[0].term, "t");
    assert_eq!(blocked.entries[0].postings, vec![("doc".to_string(), 5usize)]);
    assert_eq!(blocked.document_count, 1);
}

#[test]
fn equivalence_across_block_sizes() {
    let tokens = vec![
        tok("d2", "zebra", 0),
        tok("d2", "apple", 0),
        tok("d1", "mango", 1),
        tok("d2", "apple", 0),
        tok("d3", "zebra", 2),
        tok("d1", "apple", 1),
        tok("d3", "mango", 2),
    ];
    let simple = create_index_simple(&tokens);
    let baseline: Vec<(String, Vec<(String, usize)>)> =
        simple.entries.iter().map(|e| (e.term.clone(), sorted_postings(e))).collect();
    for max_block in 1..=8 {
        let blocked = create_index_spimi(&tokens, max_block);
        let got: Vec<(String, Vec<(String, usize)>)> =
            blocked.entries.iter().map(|e| (e.term.clone(), sorted_postings(e))).collect();
        assert_eq!(got, baseline);
        assert_eq!(blocked.document_count, simple.document_count);
        for doc in ["d1", "d2", "d3"] {
            let d = doc.to_string();
            assert_eq!(blocked.terms_counter.get(&d), simple.terms_counter.get(&d));
            assert_eq!(blocked.length_counter.get(&d), simple.length_counter.get(&d));
        }
    }
}

#[test]
fn terms_strictly_ascending() {
    let tokens = vec![
        tok("a", "pear", 0),
        tok("a", "fig", 0),
        tok("b", "apple", 1),
        tok("b", "pear", 1),
        tok("c", "banana", 2),
        tok("c", "fig", 2),
    ];
    for build in [create_index_simple(&tokens), create_index_spimi(&tokens, 2)] {
        let terms: Vec<String> = build.entries.iter().map(|e| e.term.clone()).collect();
        for w in terms.windows(2) {
            assert!(w[0] < w[1]);
        }
    }
}

#[test]
fn stats_additivity() {
    let tokens = vec![
        tok("x", "a", 0),
        tok("x", "b", 0),
        tok("x", "a", 0),
        tok("y", "b", 1),
        tok("y", "b", 1),
    ];
    let build = create_index_simple(&tokens);
    for doc in ["x", "y"] {
        let d = doc.to_string();
        let mut total = 0usize;
        let mut distinct = 0usize;
        for e in build.entries.iter() {
            for (pd, tf) in e.postings.iter() {
                if *pd == d {
                    total += tf;
                    distinct += 1;
                }
            }
        }
        assert_eq!(build.length_counter.get(&d), Some(total));
        assert_eq!(build.terms_counter.get(&d), Some(distinct));
    }
    assert_eq!(build.length_counter.get(&"x".to_string()), Some(3));
    assert_eq!(build.terms_counter.get(&"x".to_string()), Some(2));
    assert_eq!(build.length_counter.get(&"y".to_string()), Some(2));
    assert_eq!(build.terms_counter.get(&"y".to_string()), Some(1));
}

#[test]
fn last_group_is_flushed() {
    // the final term group after the last token must not be dropped
    let tokens = vec![tok("d1", "alpha", 0), tok("d1", "omega", 0)];
    let build = create_index_simple(&tokens);
    assert_eq!(build.entries.len(), 2);
    assert_eq!(build.entries[1].term, "omega");
}

#[test]
fn bag_of_words_counts() {
    let words = vec!["d1".to_string(), "d2".to_string(), "d1".to_string()];
    let bag = to_bag_of_words(&words);
    assert_eq!(bag, vec![("d1".to_string(), 2usize), ("d2".to_string(), 1usize)]);
    let empty: Vec<String> = vec![];
    assert_eq!(to_bag_of_words(&empty), vec![]);
}

#[test]
fn spimi_invert_builds_sorted_block() {
    let tokens = vec![tok("d1", "b", 0), tok("d1", "a", 0), tok("d2", "b", 1), tok("d2", "c", 1)];
    let (block, next) = spimi_invert(&tokens, 0, 3);
    assert_eq!(next, 3);
    let got: Vec<(String, Vec<(String, usize)>)> = block.iter().map(entry_pairs).collect();
    assert_eq!(
        got,
        vec![
            ("a".to_string(), vec![("d1".to_string(), 1usize)]),
            ("b".to_string(), vec![("d1".to_string(), 1usize), ("d2".to_string(), 1usize)]),
        ]
    );
}

#[test]
fn stats_map_accumulates() {
    let mut m = StatsMap::new();
    let d1 = "d1".to_string();
    let d2 = "d2".to_string();
    assert_eq!(m.get(&d1), None);
    m.add(&d1, 2);
    m.add(&d2, 1);
    m.add(&d1, 3);
    assert_eq!(m.get(&d1), Some(5));
    assert_eq!(m.get(&d2), Some(1));
    assert_eq!(m.count(), 2);
}

#[test]
fn stats_json_shape() {
    let mut terms = StatsMap::new();
    let mut length = StatsMap::new();
    terms.add(&"d1".to_string(), 2);
    length.add(&"d1".to_string(), 3);
    let json = write_documents_stats(&terms, &length);
    assert_eq!(json, "{\"length\":{\"d1\":3},\"terms\":{\"d1\":2}}");
}

#[test]
fn index_entry_line_format() {
    let mut out = String::new();
    write_index_entry(
        &mut out,
        &"cat".to_string(),
        &vec![("d1".to_string(), 2usize), ("d2".to_string(), 1usize)],
    );
    assert_eq!(out, "cat\t2\td1|2,d2|1\n");
    let mut single = String::new();
    write_index_entry(&mut single, &"dog".to_string(), &vec![("d10".to_string(), 12usize)]);
    assert_eq!(single, "dog\t1\td10|12\n");
}

#[test]
fn token_entry_record() {
    let e = TokenEntry { position: 3, term: "cat".to_string(), document_frequency: 2, postings: 2 };
    assert_eq!(e.position, 3);
    assert_eq!(e.term, "cat");
    assert_eq!(e.document_frequency, 2);
    assert_eq!(e.postings, 2);
}

#[test]
fn header_counts_distinct_documents() {
    // gaps and repeats in document ids: the header is the distinct count
    let tokens = vec![tok("a", "t", 0), tok("c", "t", 1), tok("a", "u", 0)];
    let build = create_index_simple(&tokens);
    assert_eq!(build.document_count, 2);
}

#[test]
fn build_result_is_plain_data() {
    let tokens = example_tokens();
    let IndexBuild { document_count, entries, terms_counter, length_counter } =
        create_index_simple(&tokens);
    assert_eq!(document_count, 2);
    assert_eq!(entries.len(), 2);
    assert_eq!(terms_counter.count(), 2);
    assert_eq!(length_counter.count(), 2);
}
