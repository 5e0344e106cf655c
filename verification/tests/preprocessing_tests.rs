use text_retrieval::preprocessing::{
    case_fold, create_preprocessor, preprocess, remove_stops_words, split_words, stem,
};
use text_retrieval::tokenization::create_token_stream;

fn strs(words: &[&str]) -> Vec<String> {
    words.iter().map(|w| w.to_string()).collect()
}

#[test]
fn split_plain_text() {
    let words = split_words("the quick  brown fox", false, false, false, None);
    assert_eq!(words, strs(&["the", "quick", "brown", "fox"]));
}

#[test]
fn split_strips_html_tags() {
    let words = split_words("<b>Hello</b> world", true, false, false, None);
    assert_eq!(words, strs(&["Hello", "world"]));
}

#[test]
fn split_tag_does_not_cross_lines() {
    // an unclosed angle bracket on its line is not a tag; the bracket
    // characters themselves still split words
    let words = split_words("<a\nb> x", true, false, false, None);
    assert_eq!(words, strs(&["a", "b", "x"]));
}

#[test]
fn split_strips_entities() {
    let words = split_words("fish &amp; chips", false, true, false, None);
    assert_eq!(words, strs(&["fish", "chips"]));
    // at the end of the text a greedy match backs up to the last dot or dash
    let words2 = split_words("x &a-b", false, true, false, None);
    assert_eq!(words2, strs(&["x", "b"]));
    // no terminator and nothing to back up to: not an entity
    let words3 = split_words("x &ab", false, true, false, None);
    assert_eq!(words3, strs(&["x", "&ab"]));
}

#[test]
fn split_strips_bracket_tags() {
    let words = split_words("[tag] word [other]", false, false, true, None);
    assert_eq!(words, strs(&["word"]));
}

#[test]
fn split_minimum_length_counts_bytes() {
    let words = split_words("ab abc a abcd", false, false, false, Some(2));
    assert_eq!(words, strs(&["abc", "abcd"]));
    let empty = split_words("  ,  ", false, false, false, None);
    assert_eq!(empty, Vec::<String>::new());
}

#[test]
fn case_fold_lowers() {
    let folded = case_fold(&strs(&["HeLLo", "WORLD"]));
    assert_eq!(folded, strs(&["hello", "world"]));
}

#[test]
fn stop_words_are_removed() {
    let kept = remove_stops_words(&strs(&["the", "cat", "and", "dog", "a"]));
    assert_eq!(kept, strs(&["cat", "dog"]));
}

#[test]
fn stemmer_stems() {
    let stemmed = stem(&strs(&["running", "jumps", "cat"]));
    assert_eq!(stemmed, strs(&["run", "jump", "cat"]));
}

#[test]
fn preprocessor_applies_steps_in_order() {
    let preprocessor = create_preprocessor(true, true, true, None);
    let out = preprocess(&strs(&["The", "Running", "DOGS"]), &preprocessor);
    assert_eq!(out, strs(&["run", "dog"]));
}

#[test]
fn preprocessor_with_no_steps_keeps_words() {
    let preprocessor = create_preprocessor(false, false, false, None);
    let out = preprocess(&strs(&["The", "Running", "DOGS"]), &preprocessor);
    assert_eq!(out, strs(&["The", "Running", "DOGS"]));
}

#[test]
fn token_stream_is_document_contiguous() {
    let documents = vec![
        ("d1".to_string(), "cat dog".to_string()),
        ("d2".to_string(), "cat".to_string()),
    ];
    let preprocessor = create_preprocessor(false, false, false, None);
    let tokens = create_token_stream(&documents, &preprocessor, false, false, false, None);
    let got: Vec<(String, String, usize)> = tokens
        .iter()
        .map(|t| (t.doc_id.clone(), t.term.clone(), t.num_documents_processed))
        .collect();
    assert_eq!(
        got,
        vec![
            ("d1".to_string(), "cat".to_string(), 0),
            ("d1".to_string(), "dog".to_string(), 0),
            ("d2".to_string(), "cat".to_string(), 1),
        ]
    );
}

#[test]
fn token_stream_normalizes_documents() {
    let documents = vec![("doc".to_string(), "<p>The Cats&nbsp;run</p>".to_string())];
    let preprocessor = create_preprocessor(true, true, false, None);
    let tokens = create_token_stream(&documents, &preprocessor, true, true, false, None);
    // removing the entity joins the words around it, as replacing the
    // matched span with nothing does
    let got: Vec<String> = tokens.iter().map(|t| t.term.clone()).collect();
    assert_eq!(got, strs(&["catsrun"]));
}
