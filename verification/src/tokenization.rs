use vstd::prelude::*;

use crate::preprocessing::{preprocess, preprocessed, split_words, split_words_spec, Preprocessor};

verus! {

/// One occurrence of a term in a document, as the token source hands them
/// out: document-contiguous, terms in original order. The last field is the
/// number of documents fully processed before this token's document.
pub struct Token {
    pub doc_id: String,
    pub term: String,
    pub num_documents_processed: usize,
}

/// A token as the contracts see it: document id, term, document ordinal.
pub open spec fn token_model(t: Token) -> (Seq<char>, Seq<char>, nat) {
    (t.doc_id@, t.term@, t.num_documents_processed as nat)
}

pub open spec fn token_models(ts: Seq<Token>) -> Seq<(Seq<char>, Seq<char>, nat)> {
    ts.map_values(|t: Token| token_model(t))
}

/// The terms one document contributes: its text split into words, then run
/// through the pipeline's exactly-described steps.
pub open spec fn doc_terms(
    content: Seq<char>,
    strip_html_tags: bool,
    strip_html_entities: bool,
    strip_square_bracket_tags: bool,
    min_length: Option<usize>,
    case_folding: bool,
    stop_word_removal: bool,
    stemming: bool,
) -> Seq<Seq<char>> {
    preprocessed(
        split_words_spec(
            content,
            strip_html_tags,
            strip_html_entities,
            strip_square_bracket_tags,
            min_length,
        ),
        case_folding,
        stop_word_removal,
        stemming,
    )
}

pub open spec fn doc_token_models(doc_id: Seq<char>, terms: Seq<Seq<char>>, num: nat) -> Seq<
    (Seq<char>, Seq<char>, nat),
> {
    terms.map_values(|t: Seq<char>| (doc_id, t, num))
}

/// The whole token stream: each document's tokens in document order, terms
/// in their original order, each token carrying its document's ordinal.
pub open spec fn stream_of(
    docs: Seq<(String, String)>,
    strip_html_tags: bool,
    strip_html_entities: bool,
    strip_square_bracket_tags: bool,
    min_length: Option<usize>,
    case_folding: bool,
    stop_word_removal: bool,
    stemming: bool,
) -> Seq<(Seq<char>, Seq<char>, nat)>
    decreases docs.len(),
{
    if docs.len() == 0 {
        Seq::empty()
    } else {
        stream_of(
            docs.drop_last(),
            strip_html_tags,
            strip_html_entities,
            strip_square_bracket_tags,
            min_length,
            case_folding,
            stop_word_removal,
            stemming,
        ) + doc_token_models(
            docs.last().0@,
            doc_terms(
                docs.last().1@,
                strip_html_tags,
                strip_html_entities,
                strip_square_bracket_tags,
                min_length,
                case_folding,
                stop_word_removal,
                stemming,
            ),
            (docs.len() - 1) as nat,
        )
    }
}

/// Turns parsed documents - `(document id, text)` pairs, in order - into
/// the token stream: one token per normalized term, document-contiguous,
/// each carrying the count of documents processed before its own.
pub fn create_token_stream(
    documents: &Vec<(String, String)>,
    preprocessor: &Preprocessor,
    strip_html_tags: bool,
    strip_html_entities: bool,
    strip_square_bracket_tags: bool,
    min_length: Option<usize>,
) -> (r: Vec<Token>)
    ensures
        preprocessor.lemmatizer is None ==> token_models(r@) == stream_of(
            documents@,
            strip_html_tags,
            strip_html_entities,
            strip_square_bracket_tags,
            min_length,
            preprocessor.case_folding,
            preprocessor.stop_word_removal,
            preprocessor.stemming,
        ),
        r@.len() == stream_of(
            documents@,
            strip_html_tags,
            strip_html_entities,
            strip_square_bracket_tags,
            min_length,
            preprocessor.case_folding,
            preprocessor.stop_word_removal,
            preprocessor.stemming,
        ).len(),
{
    let ghost fold = preprocessor.case_folding;
    let ghost stops = preprocessor.stop_word_removal;
    let ghost stemming = preprocessor.stemming;
    let mut out: Vec<Token> = Vec::new();
    let mut d: usize = 0;
    proof {
        assert(documents@.subrange(0, 0) =~= Seq::<(String, String)>::empty());
        assert(token_models(out@) =~= Seq::<(Seq<char>, Seq<char>, nat)>::empty());
    }
    while d < documents.len()
        invariant
            d <= documents@.len(),
            fold == preprocessor.case_folding,
            stops == preprocessor.stop_word_removal,
            stemming == preprocessor.stemming,
            preprocessor.lemmatizer is None ==> token_models(out@) == stream_of(
                documents@.subrange(0, d as int),
                strip_html_tags,
                strip_html_entities,
                strip_square_bracket_tags,
                min_length,
                fold,
                stops,
                stemming,
            ),
            out@.len() == stream_of(
                documents@.subrange(0, d as int),
                strip_html_tags,
                strip_html_entities,
                strip_square_bracket_tags,
                min_length,
                fold,
                stops,
                stemming,
            ).len(),
        decreases documents@.len() - d,
    {
        let ghost prefix_models = stream_of(
            documents@.subrange(0, d as int),
            strip_html_tags,
            strip_html_entities,
            strip_square_bracket_tags,
            min_length,
            fold,
            stops,
            stemming,
        );
        let words = split_words(
            documents[d].1.as_str(),
            strip_html_tags,
            strip_html_entities,
            strip_square_bracket_tags,
            min_length,
        );
        let terms = preprocess(&words, preprocessor);
        let ghost dterms = doc_terms(
            documents@[d as int].1@,
            strip_html_tags,
            strip_html_entities,
            strip_square_bracket_tags,
            min_length,
            fold,
            stops,
            stemming,
        );
        proof {
            assert(preprocessor.lemmatizer is None ==> crate::counting::views_of(terms@)
                == dterms);
            assert(terms@.len() == dterms.len());
        }
        let mut t: usize = 0;
        while t < terms.len()
            invariant
                t <= terms@.len(),
                d < documents@.len(),
                terms@.len() == dterms.len(),
                preprocessor.lemmatizer is None ==> crate::counting::views_of(terms@) == dterms,
                preprocessor.lemmatizer is None ==> token_models(out@) == prefix_models
                    + doc_token_models(
                    documents@[d as int].0@,
                    dterms.subrange(0, t as int),
                    d as nat,
                ),
                out@.len() == prefix_models.len() + t,
            decreases terms@.len() - t,
        {
            let ghost out0 = out@;
            let token = Token {
                doc_id: documents[d].0.clone(),
                term: terms[t].clone(),
                num_documents_processed: d,
            };
            out.push(token);
            proof {
                assert(token_models(out@) =~= token_models(out0).push(token_model(token)));
                if preprocessor.lemmatizer is None {
                    assert(dterms[t as int] == terms@[t as int]@);
                    assert(token_model(token) == (
                        documents@[d as int].0@,
                        dterms[t as int],
                        d as nat,
                    ));
                    assert(dterms.subrange(0, t + 1) =~= dterms.subrange(0, t as int).push(
                        dterms[t as int],
                    ));
                    assert(doc_token_models(
                        documents@[d as int].0@,
                        dterms.subrange(0, t + 1),
                        d as nat,
                    ) =~= doc_token_models(
                        documents@[d as int].0@,
                        dterms.subrange(0, t as int),
                        d as nat,
                    ).push((documents@[d as int].0@, dterms[t as int], d as nat)));
                    assert(prefix_models + doc_token_models(
                        documents@[d as int].0@,
                        dterms.subrange(0, t as int),
                        d as nat,
                    ).push((documents@[d as int].0@, dterms[t as int], d as nat)) =~= (prefix_models
                        + doc_token_models(
                        documents@[d as int].0@,
                        dterms.subrange(0, t as int),
                        d as nat,
                    )).push((documents@[d as int].0@, dterms[t as int], d as nat)));
                }
            }
            t = t + 1;
        }
        proof {
            let next = documents@.subrange(0, d + 1);
            assert(next.drop_last() =~= documents@.subrange(0, d as int));
            assert(next.last() == documents@[d as int]);
            assert(stream_of(
                next,
                strip_html_tags,
                strip_html_entities,
                strip_square_bracket_tags,
                min_length,
                fold,
                stops,
                stemming,
            ) == prefix_models + doc_token_models(documents@[d as int].0@, dterms, d as nat));
            assert(dterms.subrange(0, dterms.len() as int) =~= dterms);
            assert(doc_token_models(documents@[d as int].0@, dterms, d as nat).len()
                == dterms.len());
        }
        d = d + 1;
    }
    proof {
        assert(documents@.subrange(0, documents@.len() as int) =~= documents@);
    }
    out
}

} // verus!
