use vstd::prelude::*;

use crate::counting::{
    concat_slices, count_doc, count_pair, count_word, lemma_concat_slices_count,
    lemma_count_doc_le_len, lemma_count_pair_absent_term, lemma_count_pair_at,
    lemma_count_pair_concat, lemma_count_pair_insert, lemma_count_pair_le_len,
    lemma_count_pair_occurs, lemma_count_pair_push, lemma_count_pair_single_term,
    lemma_concat_slices_step, lemma_concat_slices_prefix_le,
    lemma_count_word_le_len, lemma_count_word_of_docs, lemma_count_word_push, views_of, doc_seq, doc_count_of,
};
use crate::order::{
    lemma_lex_asymmetric, lemma_lex_irreflexive, lemma_lex_le_transitive, lemma_lex_total,
    lemma_lex_transitive, lex_le, lex_lt, str_compare, TermOrder,
};
use crate::stats::StatsMap;
use crate::tokenization::Token;

verus! {

/// One posting: a document id and the term's frequency within it.
pub type PostingEntry = (String, usize);

/// One line of the final index: a term and its postings list.
pub struct IndexEntry {
    pub term: String,
    pub postings: Vec<PostingEntry>,
}

/// A record of one already-written index line, as a reader of the index
/// file sees it: the line's position, its term, the term's document
/// frequency, and the number of postings on the line.
#[derive(Debug)]
pub struct TokenEntry {
    pub position: usize,
    pub term: String,
    pub document_frequency: usize,
    pub postings: usize,
}

/// What a token contributes to the index: its document id and its term.
pub open spec fn pair_of(t: Token) -> (Seq<char>, Seq<char>) {
    (t.doc_id@, t.term@)
}

pub open spec fn pairs_of(ts: Seq<Token>) -> Seq<(Seq<char>, Seq<char>)> {
    ts.map_values(|t: Token| pair_of(t))
}

/// Document ids appear at most once in a postings list, and every recorded
/// frequency is positive.
pub open spec fn postings_wf(p: Seq<PostingEntry>) -> bool {
    (forall|i: int, j: int|
        0 <= i < j < p.len() ==> (#[trigger] p[i]).0@ != (#[trigger] p[j]).0@) && (forall|i: int|
        0 <= i < p.len() ==> (#[trigger] p[i]).1 >= 1)
}

/// The entry records, for its term, exactly the frequencies found in the
/// token sequence `ps`, one posting per document that carries the term.
pub open spec fn entry_counts(e: IndexEntry, ps: Seq<(Seq<char>, Seq<char>)>) -> bool {
    &&& postings_wf(e.postings@)
    &&& e.postings@.len() >= 1
    &&& forall|k: int|
        0 <= k < e.postings@.len() ==> (#[trigger] e.postings@[k]).1 as nat == count_pair(
            ps,
            e.postings@[k].0@,
            e.term@,
        )
    &&& forall|d: Seq<char>|
        count_pair(ps, d, e.term@) > 0 ==> exists|k: int|
            0 <= k < e.postings@.len() && (#[trigger] e.postings@[k]).0@ == d
}

/// The whole index is a faithful inverted image of the token sequence `ps`:
/// terms strictly ascending, each entry's postings exact, and no term with
/// an occurrence left out.
pub open spec fn index_represents(idx: Seq<IndexEntry>, ps: Seq<(Seq<char>, Seq<char>)>) -> bool {
    &&& forall|i: int, j: int|
        0 <= i < j < idx.len() ==> lex_lt((#[trigger] idx[i]).term@, (#[trigger] idx[j]).term@)
    &&& forall|i: int| 0 <= i < idx.len() ==> entry_counts(#[trigger] idx[i], ps)
    &&& forall|d: Seq<char>, t: Seq<char>|
        count_pair(ps, d, t) > 0 ==> exists|i: int| 0 <= i < idx.len() && (#[trigger] idx[i]).term@
            == t
}

/// Converts the document ids observed for one term into a postings list:
/// one posting per distinct document, frequency its occurrence count.
pub fn to_bag_of_words(words: &Vec<String>) -> (r: Vec<PostingEntry>)
    ensures
        postings_wf(r@),
        forall|k: int|
            0 <= k < r@.len() ==> (#[trigger] r@[k]).1 as nat == count_word(
                views_of(words@),
                r@[k].0@,
            ),
        forall|d: Seq<char>|
            count_word(views_of(words@), d) > 0 <==> exists|k: int|
                0 <= k < r@.len() && (#[trigger] r@[k]).0@ == d,
        r@.len() <= words@.len(),
        words@.len() > 0 ==> r@.len() > 0,
    {
    let ghost wv = views_of(words@);
    let mut bow: Vec<PostingEntry> = Vec::new();
    let mut i: usize = 0;
    proof {
        assert(wv.subrange(0, 0) =~= Seq::<Seq<char>>::empty());
    }
    while i < words.len()
        invariant
            i <= words@.len(),
            wv == views_of(words@),
            wv.len() == words@.len(),
            postings_wf(bow@),
            bow@.len() <= i,
            i > 0 ==> bow@.len() > 0,
            forall|k: int|
                0 <= k < bow@.len() ==> (#[trigger] bow@[k]).1 as nat == count_word(
                    wv.subrange(0, i as int),
                    bow@[k].0@,
                ),
            forall|d: Seq<char>|
                count_word(wv.subrange(0, i as int), d) > 0 ==> exists|k: int|
                    0 <= k < bow@.len() && (#[trigger] bow@[k]).0@ == d,
        decreases words@.len() - i,
    {
        let ghost prefix = wv.subrange(0, i as int);
        proof {
            assert(wv.subrange(0, i + 1) =~= prefix.push(wv[i as int]));
            assert(wv[i as int] == words@[i as int]@);
        }
        let mut j: usize = 0;
        let mut found = false;
        while j < bow.len() && !found
            invariant
                j <= bow@.len(),
                !found ==> forall|k: int| 0 <= k < j ==> (#[trigger] bow@[k]).0@ != words@[
                    i as int]@,
                found ==> j < bow@.len() && bow@[j as int].0@ == words@[i as int]@,
                i < words@.len(),
            decreases bow@.len() - j + if found {
                0int
            } else {
                1int
            },
        {
            if bow[j].0 == words[i] {
                found = true;
            } else {
                j = j + 1;
            }
        }
        let ghost bow0 = bow@;
        let ghost w = wv[i as int];
        if found {
            proof {
                lemma_count_word_le_len(prefix, bow0[j as int].0@);
            }
            let (doc, tf) = bow.remove(j);
            let new_tf = tf + 1;
            bow.insert(j, (doc, new_tf));
            proof {
                assert(bow@ =~= bow0.update(j as int, (bow0[j as int].0, new_tf)));
                assert forall|k: int| 0 <= k < bow@.len() implies (#[trigger] bow@[k]).1 as nat
                    == count_word(wv.subrange(0, i + 1), bow@[k].0@) by {
                    assert(bow@[k].0@ == bow0[k].0@);
                    lemma_count_word_push(prefix, w, bow@[k].0@);
                    if k != j {
                        assert(bow0[k].0@ != bow0[j as int].0@);
                    }
                }
                assert forall|d: Seq<char>|
                    #[trigger] count_word(wv.subrange(0, i + 1), d) > 0 implies exists|k: int|
                    0 <= k < bow@.len() && bow@[k].0@ == d by {
                    lemma_count_word_push(prefix, w, d);
                    if d == w {
                        assert(bow@[j as int].0@ == d);
                    } else {
                        let k = choose|k: int| 0 <= k < bow0.len() && (#[trigger] bow0[k]).0@ == d;
                        assert(bow@[k].0@ == d);
                    }
                }
            }
        } else {
            bow.push((words[i].clone(), 1));
            proof {
                assert(bow@ =~= bow0.push((words@[i as int], 1usize)));
                assert(count_word(prefix, w) == 0) by {
                    if count_word(prefix, w) > 0 {
                        let k2 = choose|k2: int|
                            0 <= k2 < bow0.len() && (#[trigger] bow0[k2]).0@ == w;
                        assert(false);
                    }
                }
                assert forall|k: int| 0 <= k < bow@.len() implies (#[trigger] bow@[k]).1 as nat
                    == count_word(wv.subrange(0, i + 1), bow@[k].0@) by {
                    lemma_count_word_push(prefix, w, bow@[k].0@);
                    if k < bow@.len() - 1 {
                        assert(bow@[k] == bow0[k]);
                        assert(bow0[k].0@ != w);
                    }
                }
                assert forall|d: Seq<char>|
                    #[trigger] count_word(wv.subrange(0, i + 1), d) > 0 implies exists|k: int|
                    0 <= k < bow@.len() && bow@[k].0@ == d by {
                    lemma_count_word_push(prefix, w, d);
                    if d == w {
                        assert(bow@[bow@.len() - 1].0@ == d);
                    } else {
                        let k = choose|k: int| 0 <= k < bow0.len() && (#[trigger] bow0[k]).0@ == d;
                        assert(bow@[k].0@ == d);
                    }
                }
                assert forall|x: int, y: int| 0 <= x < y < bow@.len() implies (#[trigger] bow@[x]).0@
                    != (#[trigger] bow@[y]).0@ by {
                    if y < bow@.len() - 1 {
                        assert(bow@[x] == bow0[x]);
                        assert(bow@[y] == bow0[y]);
                    } else {
                        assert(bow@[x] == bow0[x]);
                        assert(bow0[x].0@ != w);
                    }
                }
            }
        }
        i = i + 1;
    }
    proof {
        assert(wv.subrange(0, words@.len() as int) =~= wv);
    }
    bow
}

/// Stable sort of the tokens by term, ascending in `lex_lt`; token counts
/// are preserved for every document/term pair.
fn sort_tokens(tokens: &Vec<Token>) -> (r: Vec<Token>)
    ensures
        r@.len() == tokens@.len(),
        forall|x: int, y: int|
            0 <= x < y < r@.len() ==> lex_le((#[trigger] r@[x]).term@, (#[trigger] r@[y]).term@),
        forall|d: Seq<char>, t: Seq<char>|
            count_pair(pairs_of(r@), d, t) == count_pair(pairs_of(tokens@), d, t),
{
    let mut out: Vec<Token> = Vec::new();
    let mut i: usize = 0;
    proof {
        assert(pairs_of(tokens@.subrange(0, 0)) =~= Seq::<(Seq<char>, Seq<char>)>::empty());
        assert(pairs_of(out@) =~= Seq::<(Seq<char>, Seq<char>)>::empty());
    }
    while i < tokens.len()
        invariant
            i <= tokens@.len(),
            out@.len() == i,
            forall|x: int, y: int|
                0 <= x < y < out@.len() ==> lex_le(
                    (#[trigger] out@[x]).term@,
                    (#[trigger] out@[y]).term@,
                ),
            forall|d: Seq<char>, t: Seq<char>|
                count_pair(pairs_of(out@), d, t) == count_pair(
                    pairs_of(tokens@.subrange(0, i as int)),
                    d,
                    t,
                ),
        decreases tokens@.len() - i,
    {
        let tok = Token {
            doc_id: tokens[i].doc_id.clone(),
            term: tokens[i].term.clone(),
            num_documents_processed: tokens[i].num_documents_processed,
        };
        proof {
            assert(pair_of(tok) == pair_of(tokens@[i as int]));
        }
        let mut j: usize = out.len();
        loop
            invariant
                j <= out@.len(),
                forall|k: int| j <= k < out@.len() ==> lex_lt(tok.term@, (#[trigger] out@[k]).term@),
                forall|x: int, y: int|
                    0 <= x < y < out@.len() ==> lex_le(
                        (#[trigger] out@[x]).term@,
                        (#[trigger] out@[y]).term@,
                    ),
            ensures
                j <= out@.len(),
                forall|k: int| j <= k < out@.len() ==> lex_lt(tok.term@, (#[trigger] out@[k]).term@),
                j > 0 ==> lex_le(out@[j - 1].term@, tok.term@),
            decreases j,
        {
            if j == 0 {
                break ;
            }
            match str_compare(tok.term.as_str(), out[j - 1].term.as_str()) {
                TermOrder::Less => {
                    j = j - 1;
                },
                _ => {
                    proof {
                        lemma_lex_total(out@[j - 1].term@, tok.term@);
                        assert(lex_le(out@[j - 1].term@, tok.term@));
                    }
                    break ;
                },
            }
        }
        let ghost out0 = out@;
        out.insert(j, tok);
        proof {
            assert(out@ =~= out0.insert(j as int, tok));
            assert forall|x: int, y: int| 0 <= x < y < out@.len() implies lex_le(
                (#[trigger] out@[x]).term@,
                (#[trigger] out@[y]).term@,
            ) by {
                let a = out@[x].term@;
                let b = out@[y].term@;
                if x == j && y > j {
                    assert(out@[y] == out0[y - 1]);
                } else if y == j && x < j {
                    assert(out@[x] == out0[x]);
                    assert(lex_le(out0[j - 1].term@, tok.term@));
                    if x < j - 1 {
                        lemma_lex_le_transitive(out0[x].term@, out0[j - 1].term@, tok.term@);
                    }
                } else if x < j && y > j {
                    assert(out@[x] == out0[x]);
                    assert(out@[y] == out0[y - 1]);
                } else if x < j && y < j {
                    assert(out@[x] == out0[x]);
                    assert(out@[y] == out0[y]);
                } else if x > j && y > j {
                    assert(out@[x] == out0[x - 1]);
                    assert(out@[y] == out0[y - 1]);
                }
            }
            assert(pairs_of(out@) =~= pairs_of(out0).insert(j as int, pair_of(tok)));
            assert(pairs_of(tokens@.subrange(0, i + 1)) =~= pairs_of(
                tokens@.subrange(0, i as int),
            ).push(pair_of(tokens@[i as int])));
            assert forall|d: Seq<char>, t: Seq<char>|
                #[trigger] count_pair(pairs_of(out@), d, t) == count_pair(
                    pairs_of(tokens@.subrange(0, i + 1)),
                    d,
                    t,
                ) by {
                lemma_count_pair_insert(pairs_of(out0), j as int, pair_of(tok), d, t);
                lemma_count_pair_push(
                    pairs_of(tokens@.subrange(0, i as int)),
                    pair_of(tokens@[i as int]),
                    d,
                    t,
                );
            }
        }
        i = i + 1;
    }
    proof {
        assert(tokens@.subrange(0, tokens@.len() as int) =~= tokens@);
    }
    out
}

/// Counts the distinct document ids among the tokens.
fn count_documents(tokens: &Vec<Token>) -> (r: usize)
    ensures
        r as nat == doc_count_of(pairs_of(tokens@)),
{
    let ghost ps = pairs_of(tokens@);
    let mut seen: Vec<String> = Vec::new();
    let mut i: usize = 0;
    while i < tokens.len()
        invariant
            i <= tokens@.len(),
            ps == pairs_of(tokens@),
            ps.len() == tokens@.len(),
            views_of(seen@).no_duplicates(),
            forall|d: Seq<char>|
                views_of(seen@).contains(d) <==> exists|k: int|
                    0 <= k < i && (#[trigger] ps[k]).0 == d,
        decreases tokens@.len() - i,
    {
        let mut j: usize = 0;
        let mut found = false;
        while j < seen.len() && !found
            invariant
                j <= seen@.len(),
                i < tokens@.len(),
                !found ==> forall|k: int| 0 <= k < j ==> (#[trigger] seen@[k])@ != tokens@[
                    i as int].doc_id@,
                found ==> exists|k: int| 0 <= k < seen@.len() && (#[trigger] seen@[k])@ == tokens@[
                    i as int].doc_id@,
            decreases seen@.len() - j + if found {
                0int
            } else {
                1int
            },
        {
            if seen[j] == tokens[i].doc_id {
                found = true;
            } else {
                j = j + 1;
            }
        }
        let ghost seen0 = seen@;
        if !found {
            seen.push(tokens[i].doc_id.clone());
            proof {
                assert(views_of(seen@) =~= views_of(seen0).push(tokens@[i as int].doc_id@));
                assert(!views_of(seen0).contains(tokens@[i as int].doc_id@)) by {
                    let dv = tokens@[i as int].doc_id@;
                    if views_of(seen0).contains(dv) {
                        let k = choose|k: int|
                            0 <= k < views_of(seen0).len() && views_of(seen0)[k] == dv;
                        assert(seen0[k]@ == dv);
                    }
                }
            }
        }
        proof {
            let dv = tokens@[i as int].doc_id@;
            assert(ps[i as int].0 == dv);
            assert forall|d: Seq<char>| views_of(seen@).contains(d) implies exists|k: int|
                0 <= k < i + 1 && (#[trigger] ps[k]).0 == d by {
                if found || d != dv {
                    if views_of(seen0).contains(d) {
                        let k = choose|k: int| 0 <= k < i && (#[trigger] ps[k]).0 == d;
                        assert(ps[k].0 == d);
                    } else {
                        assert(d == dv);
                    }
                }
            }
            assert forall|d: Seq<char>|
                (exists|k: int| 0 <= k < i + 1 && (#[trigger] ps[k]).0 == d) implies views_of(
                seen@,
            ).contains(d) by {
                let k = choose|k: int| 0 <= k < i + 1 && (#[trigger] ps[k]).0 == d;
                if k < i {
                    assert(views_of(seen0).contains(d));
                    if !found {
                        let x = choose|x: int|
                            0 <= x < views_of(seen0).len() && views_of(seen0)[x] == d;
                        assert(views_of(seen@)[x] == d);
                    }
                } else {
                    assert(d == dv);
                    if found {
                        let x = choose|x: int|
                            0 <= x < seen0.len() && (#[trigger] seen0[x])@ == dv;
                        assert(views_of(seen@)[x] == d);
                    } else {
                        assert(views_of(seen@).last() == d);
                    }
                }
            }
        }
        i = i + 1;
    }
    proof {
        views_of(seen@).unique_seq_to_set();
        assert(views_of(seen@).to_set() =~= doc_seq(ps).to_set()) by {
            assert forall|d: Seq<char>| views_of(seen@).to_set().contains(d) implies doc_seq(
                ps,
            ).to_set().contains(d) by {
                let k = choose|k: int| 0 <= k < ps.len() && (#[trigger] ps[k]).0 == d;
                assert(doc_seq(ps)[k] == d);
            }
            assert forall|d: Seq<char>| doc_seq(ps).to_set().contains(d) implies views_of(
                seen@,
            ).to_set().contains(d) by {
                let k = choose|k: int| 0 <= k < doc_seq(ps).len() && doc_seq(ps)[k] == d;
                assert(ps[k].0 == d);
            }
        }
    }
    seen.len()
}

/// Builds the index entries for a term-sorted token sequence: scan once,
/// group equal terms, aggregate each group into postings.
fn build_from_sorted(sorted: &Vec<Token>) -> (entries: Vec<IndexEntry>)
    requires
        forall|x: int, y: int|
            0 <= x < y < sorted@.len() ==> lex_le(
                (#[trigger] sorted@[x]).term@,
                (#[trigger] sorted@[y]).term@,
            ),
    ensures
        index_represents(entries@, pairs_of(sorted@)),
{
    let ghost ps = pairs_of(sorted@);
    let mut entries: Vec<IndexEntry> = Vec::new();
    let mut i: usize = 0;
    while i < sorted.len()
        invariant
            i <= sorted@.len(),
            ps == pairs_of(sorted@),
            ps.len() == sorted@.len(),
            forall|x: int, y: int|
                0 <= x < y < sorted@.len() ==> lex_le(
                    (#[trigger] sorted@[x]).term@,
                    (#[trigger] sorted@[y]).term@,
                ),
            i < sorted@.len() ==> forall|k: int|
                0 <= k < i ==> lex_lt((#[trigger] sorted@[k]).term@, sorted@[i as int].term@),
            forall|x: int, y: int|
                0 <= x < y < entries@.len() ==> lex_lt(
                    (#[trigger] entries@[x]).term@,
                    (#[trigger] entries@[y]).term@,
                ),
            forall|x: int| 0 <= x < entries@.len() ==> entry_counts(#[trigger] entries@[x], ps),
            forall|x: int, k: int|
                0 <= x < entries@.len() && i <= k < sorted@.len() ==> lex_lt(
                    (#[trigger] entries@[x]).term@,
                    (#[trigger] sorted@[k]).term@,
                ),
            forall|d: Seq<char>, t: Seq<char>|
                count_pair(ps.subrange(0, i as int), d, t) > 0 ==> exists|x: int|
                    0 <= x < entries@.len() && (#[trigger] entries@[x]).term@ == t,
        decreases sorted@.len() - i,
    {
        let term = sorted[i].term.clone();
        let mut doc_ids: Vec<String> = Vec::new();
        doc_ids.push(sorted[i].doc_id.clone());
        let mut j: usize = i + 1;
        proof {
            assert(views_of(doc_ids@) =~= doc_seq(ps.subrange(i as int, i + 1)));
        }
        while j < sorted.len()
            invariant
                i < j <= sorted@.len(),
                i < sorted@.len(),
                ps == pairs_of(sorted@),
                ps.len() == sorted@.len(),
                term@ == sorted@[i as int].term@,
                forall|x: int, y: int|
                    0 <= x < y < sorted@.len() ==> lex_le(
                        (#[trigger] sorted@[x]).term@,
                        (#[trigger] sorted@[y]).term@,
                    ),
                forall|k: int| i <= k < j ==> (#[trigger] sorted@[k]).term@ == term@,
                views_of(doc_ids@) == doc_seq(ps.subrange(i as int, j as int)),
            ensures
                i < j <= sorted@.len(),
                j < sorted@.len() ==> sorted@[j as int].term@ != term@,
                forall|k: int| i <= k < j ==> (#[trigger] sorted@[k]).term@ == term@,
                views_of(doc_ids@) == doc_seq(ps.subrange(i as int, j as int)),
            decreases sorted@.len() - j,
        {
            match str_compare(sorted[j].term.as_str(), term.as_str()) {
                TermOrder::Equal => {
                    doc_ids.push(sorted[j].doc_id.clone());
                    proof {
                        assert(ps.subrange(i as int, j + 1) =~= ps.subrange(i as int, j as int).push(
                            ps[j as int],
                        ));
                        assert(views_of(doc_ids@) =~= doc_seq(
                            ps.subrange(i as int, j as int),
                        ).push(ps[j as int].0));
                        assert(doc_seq(ps.subrange(i as int, j + 1)) =~= doc_seq(
                            ps.subrange(i as int, j as int),
                        ).push(ps[j as int].0));
                    }
                    j = j + 1;
                },
                _ => {
                    break ;
                },
            }
        }
        let postings = to_bag_of_words(&doc_ids);
        proof {
            let gi = i as int;
            let gj = j as int;
            let gn = ps.len() as int;
            let tv = term@;
            let gr = ps.subrange(gi, gj);
            let before = ps.subrange(0, gi);
            let after = ps.subrange(gj, gn);
            assert(ps =~= before + (gr + after));
            assert forall|k: int| gj <= k < gn implies (#[trigger] sorted@[k]).term@ != tv by {
                if sorted@[k].term@ == tv {
                    assert(lex_le(sorted@[gj].term@, sorted@[k].term@) || gj == k);
                    assert(lex_le(sorted@[gi].term@, sorted@[gj].term@));
                    lemma_lex_total(sorted@[gj].term@, tv);
                    if lex_lt(sorted@[gj].term@, tv) {
                        lemma_lex_asymmetric(sorted@[gj].term@, tv);
                        if gj < k {
                            lemma_lex_asymmetric(tv, sorted@[gj].term@);
                        }
                    }
                    if lex_lt(tv, sorted@[gj].term@) {
                        if gj < k {
                            lemma_lex_transitive(tv, sorted@[gj].term@, sorted@[k].term@);
                            lemma_lex_asymmetric(tv, sorted@[k].term@);
                        } else {
                            lemma_lex_asymmetric(tv, sorted@[gj].term@);
                        }
                    }
                }
            }
            assert forall|d: Seq<char>| #[trigger] count_pair(ps, d, tv) == count_word(
                views_of(doc_ids@),
                d,
            ) by {
                lemma_count_pair_concat(before, gr + after, d, tv);
                lemma_count_pair_concat(gr, after, d, tv);
                assert forall|k: int| 0 <= k < before.len() implies (#[trigger] before[k]).1
                    != tv by {
                    assert(before[k] == ps[k]);
                    assert(ps[k].1 == sorted@[k].term@);
                    lemma_lex_asymmetric(sorted@[k].term@, tv);
                }
                lemma_count_pair_absent_term(before, d, tv);
                assert forall|k: int| 0 <= k < after.len() implies (#[trigger] after[k]).1
                    != tv by {
                    assert(after[k] == ps[gj + k]);
                    assert(ps[gj + k].1 == sorted@[gj + k].term@);
                }
                lemma_count_pair_absent_term(after, d, tv);
                assert forall|k: int| 0 <= k < gr.len() implies (#[trigger] gr[k]).1 == tv by {
                    assert(gr[k] == ps[gi + k]);
                    assert(ps[gi + k].1 == sorted@[gi + k].term@);
                }
                lemma_count_pair_single_term(gr, d, tv);
                lemma_count_word_of_docs(gr, d);
            }
        }
        let ghost pview = postings@;
        let entry = IndexEntry { term, postings };
        let ghost entries0 = entries@;
        entries.push(entry);
        proof {
            let gi = i as int;
            let gj = j as int;
            let tv = sorted@[gi].term@;
            assert(entries@ =~= entries0.push(entry));
            assert(entries@[entries@.len() - 1] == entry);
            assert(entry.term@ == tv);
            assert(entry.postings@ == pview);
            assert(entry_counts(entry, ps)) by {
                assert(postings_wf(pview));
                assert(views_of(doc_ids@).len() > 0);
                assert(pview.len() >= 1);
                assert forall|k: int| 0 <= k < pview.len() implies (#[trigger] pview[k]).1 as nat
                    == count_pair(ps, pview[k].0@, tv) by {
                    assert(pview[k].1 as nat == count_word(views_of(doc_ids@), pview[k].0@));
                    assert(count_pair(ps, pview[k].0@, tv) == count_word(
                        views_of(doc_ids@),
                        pview[k].0@,
                    ));
                }
                assert forall|d: Seq<char>| count_pair(ps, d, tv) > 0 implies exists|k: int|
                    0 <= k < pview.len() && (#[trigger] pview[k]).0@ == d by {
                    assert(count_pair(ps, d, tv) == count_word(views_of(doc_ids@), d));
                }
            }
            assert forall|x: int, k: int|
                0 <= x < entries@.len() && gj <= k < sorted@.len() implies lex_lt(
                (#[trigger] entries@[x]).term@,
                (#[trigger] sorted@[k]).term@,
            ) by {
                assert(lex_le(tv, sorted@[k].term@));
                lemma_lex_total(tv, sorted@[k].term@);
                if x < entries@.len() - 1 {
                    assert(entries@[x] == entries0[x]);
                    assert(lex_lt(entries0[x].term@, tv));
                    lemma_lex_transitive(entries0[x].term@, tv, sorted@[k].term@);
                }
            }
            assert forall|d: Seq<char>, t: Seq<char>|
                count_pair(ps.subrange(0, gj), d, t) > 0 implies exists|x: int|
                0 <= x < entries@.len() && (#[trigger] entries@[x]).term@ == t by {
                lemma_count_pair_concat(ps.subrange(0, gi), ps.subrange(gi, gj), d, t);
                assert(ps.subrange(0, gj) =~= ps.subrange(0, gi) + ps.subrange(gi, gj));
                if count_pair(ps.subrange(0, gi), d, t) > 0 {
                    let x = choose|x: int|
                        0 <= x < entries0.len() && (#[trigger] entries0[x]).term@ == t;
                    assert(entries@[x].term@ == t);
                } else {
                    lemma_count_pair_occurs(ps.subrange(gi, gj), d, t);
                    let k = choose|k: int|
                        0 <= k < gj - gi && ps.subrange(gi, gj)[k] == (d, t);
                    assert(sorted@[gi + k].term@ == t);
                    assert(t == tv);
                    assert(entries@[entries@.len() - 1].term@ == t);
                }
            }
        }
        proof {
            if j < sorted@.len() {
                let tv = sorted@[i as int].term@;
                let nt = sorted@[j as int].term@;
                assert(lex_le(tv, nt));
                lemma_lex_total(tv, nt);
                assert(lex_lt(tv, nt));
                assert forall|k: int| 0 <= k < j implies lex_lt(
                    (#[trigger] sorted@[k]).term@,
                    nt,
                ) by {
                    if k < i {
                        lemma_lex_transitive(sorted@[k].term@, tv, nt);
                    }
                }
            }
        }
        i = j;
    }
    proof {
        assert(ps.subrange(0, ps.len() as int) =~= ps);
    }
    entries
}

/// Frequency recorded for document `d` in a postings list (zero if absent).
pub open spec fn postings_tf(p: Seq<PostingEntry>, d: Seq<char>) -> nat
    decreases p.len(),
{
    if p.len() == 0 {
        0
    } else {
        postings_tf(p.drop_last(), d) + if p.last().0@ == d {
            p.last().1 as nat
        } else {
            0nat
        }
    }
}

/// Whether a postings list mentions document `d`.
pub open spec fn postings_has(p: Seq<PostingEntry>, d: Seq<char>) -> bool {
    exists|k: int| 0 <= k < p.len() && (#[trigger] p[k]).0@ == d
}

/// Sum of the term frequencies recorded for `d` across all index entries.
pub open spec fn sum_tf(idx: Seq<IndexEntry>, d: Seq<char>) -> nat
    decreases idx.len(),
{
    if idx.len() == 0 {
        0
    } else {
        sum_tf(idx.drop_last(), d) + postings_tf(idx.last().postings@, d)
    }
}

/// Number of index entries whose postings mention `d`: the document's
/// distinct-term count.
pub open spec fn count_refs(idx: Seq<IndexEntry>, d: Seq<char>) -> nat
    decreases idx.len(),
{
    if idx.len() == 0 {
        0
    } else {
        count_refs(idx.drop_last(), d) + if postings_has(idx.last().postings@, d) {
            1nat
        } else {
            0nat
        }
    }
}

pub open spec fn terms_of(idx: Seq<IndexEntry>) -> Seq<Seq<char>> {
    idx.map_values(|e: IndexEntry| e.term@)
}

proof fn lemma_postings_tf_absent(p: Seq<PostingEntry>, d: Seq<char>)
    requires
        forall|k: int| 0 <= k < p.len() ==> (#[trigger] p[k]).0@ != d,
    ensures
        postings_tf(p, d) == 0,
    decreases p.len(),
{
    if p.len() > 0 {
        assert(p.last() == p[p.len() - 1]);
        lemma_postings_tf_absent(p.drop_last(), d);
    }
}

/// In a list with distinct documents, the recorded frequency of `d` is the
/// one posting that carries it.
proof fn lemma_postings_tf_at(p: Seq<PostingEntry>, k: int)
    requires
        0 <= k < p.len(),
        forall|x: int, y: int|
            0 <= x < y < p.len() ==> (#[trigger] p[x]).0@ != (#[trigger] p[y]).0@,
    ensures
        postings_tf(p, p[k].0@) == p[k].1 as nat,
    decreases p.len(),
{
    if k == p.len() - 1 {
        let pd = p.drop_last();
        assert forall|x: int| 0 <= x < pd.len() implies (#[trigger] pd[x]).0@ != p[k].0@ by {
            assert(pd[x] == p[x]);
        }
        lemma_postings_tf_absent(pd, p[k].0@);
    } else {
        lemma_postings_tf_at(p.drop_last(), k);
        assert(p.drop_last()[k] == p[k]);
        assert(p[k].0@ != p[p.len() - 1].0@);
    }
}


/// Sum, over a set of terms, of how often `(d, term)` occurs in `ps`.
spec fn sum_counts(terms: Seq<Seq<char>>, ps: Seq<(Seq<char>, Seq<char>)>, d: Seq<char>) -> nat
    decreases terms.len(),
{
    if terms.len() == 0 {
        0
    } else {
        sum_counts(terms.drop_last(), ps, d) + count_pair(ps, d, terms.last())
    }
}

proof fn lemma_sum_counts_push_pair(
    terms: Seq<Seq<char>>,
    ps: Seq<(Seq<char>, Seq<char>)>,
    x: (Seq<char>, Seq<char>),
    d: Seq<char>,
)
    requires
        terms.no_duplicates(),
    ensures
        sum_counts(terms, ps.push(x), d) == sum_counts(terms, ps, d) + if x.0 == d
            && terms.contains(x.1) {
            1int
        } else {
            0int
        },
    decreases terms.len(),
{
    if terms.len() > 0 {
        let front = terms.drop_last();
        assert(front.no_duplicates());
        lemma_sum_counts_push_pair(front, ps, x, d);
        lemma_count_pair_push(ps, x, d, terms.last());
        assert(terms[terms.len() - 1] == terms.last());
        if x.1 == terms.last() {
            assert(!front.contains(x.1)) by {
                if front.contains(x.1) {
                    let k = choose|k: int| 0 <= k < front.len() && front[k] == x.1;
                    assert(terms[k] == x.1);
                }
            }
            assert(terms.contains(x.1));
        } else {
            assert(front.contains(x.1) <==> terms.contains(x.1)) by {
                if front.contains(x.1) {
                    let k = choose|k: int| 0 <= k < front.len() && front[k] == x.1;
                    assert(terms[k] == x.1);
                }
                if terms.contains(x.1) {
                    let k = choose|k: int| 0 <= k < terms.len() && terms[k] == x.1;
                    assert(k < terms.len() - 1);
                    assert(front[k] == x.1);
                }
            }
        }
    }
}


proof fn lemma_sum_counts_empty(terms: Seq<Seq<char>>, d: Seq<char>)
    ensures
        sum_counts(terms, Seq::empty(), d) == 0,
    decreases terms.len(),
{
    if terms.len() > 0 {
        lemma_sum_counts_empty(terms.drop_last(), d);
    }
}


/// The total frequency recorded for a document never exceeds the number of
/// tokens that the document contributed.
pub proof fn lemma_sum_tf_bound(
    idx: Seq<IndexEntry>,
    ps: Seq<(Seq<char>, Seq<char>)>,
    d: Seq<char>,
)
    requires
        index_represents(idx, ps),
    ensures
        sum_tf(idx, d) <= count_doc(ps, d),
{
    lemma_sum_tf_conserves(idx, ps, d);
}

/// A document that no entry mentions has no recorded frequency at all.
proof fn lemma_sum_tf_zero(idx: Seq<IndexEntry>, d: Seq<char>)
    requires
        count_refs(idx, d) == 0,
    ensures
        sum_tf(idx, d) == 0,
    decreases idx.len(),
{
    if idx.len() > 0 {
        lemma_sum_tf_zero(idx.drop_last(), d);
        assert(!postings_has(idx.last().postings@, d));
        assert forall|k: int| 0 <= k < idx.last().postings@.len() implies (
        #[trigger] idx.last().postings@[k]).0@ != d by {}
        lemma_postings_tf_absent(idx.last().postings@, d);
    }
}

proof fn lemma_sum_counts_eq_count_doc(
    terms: Seq<Seq<char>>,
    ps: Seq<(Seq<char>, Seq<char>)>,
    d: Seq<char>,
)
    requires
        terms.no_duplicates(),
        forall|k: int| 0 <= k < ps.len() && (#[trigger] ps[k]).0 == d ==> terms.contains(ps[k].1),
    ensures
        sum_counts(terms, ps, d) == count_doc(ps, d),
    decreases ps.len(),
{
    if ps.len() == 0 {
        assert(ps =~= Seq::<(Seq<char>, Seq<char>)>::empty());
        lemma_sum_counts_empty(terms, d);
    } else {
        let front = ps.drop_last();
        assert(ps =~= front.push(ps.last()));
        assert forall|k: int|
            0 <= k < front.len() && (#[trigger] front[k]).0 == d implies terms.contains(
            front[k].1,
        ) by {
            assert(front[k] == ps[k]);
        }
        lemma_sum_counts_eq_count_doc(terms, front, d);
        lemma_sum_counts_push_pair(terms, front, ps.last(), d);
        assert(count_doc(front.push(ps.last()), d) == count_doc(front, d) + if ps.last().0 == d {
            1int
        } else {
            0int
        }) by {
            assert(front.push(ps.last()).drop_last() =~= front);
            assert(front.push(ps.last()).last() == ps.last());
        }
        if ps.last().0 == d {
            assert(ps[ps.len() - 1].0 == d);
            assert(terms.contains(ps.last().1));
        }
        assert(sum_counts(terms, ps, d) == sum_counts(terms, front.push(ps.last()), d));
        assert(count_doc(ps, d) == count_doc(front.push(ps.last()), d));
    }
}

proof fn lemma_sum_tf_eq_sum_counts(
    idx: Seq<IndexEntry>,
    ps: Seq<(Seq<char>, Seq<char>)>,
    d: Seq<char>,
)
    requires
        forall|x: int| 0 <= x < idx.len() ==> entry_counts(#[trigger] idx[x], ps),
    ensures
        sum_tf(idx, d) == sum_counts(terms_of(idx), ps, d),
    decreases idx.len(),
{
    if idx.len() > 0 {
        let front = idx.drop_last();
        assert forall|x: int| 0 <= x < front.len() implies entry_counts(
            #[trigger] front[x],
            ps,
        ) by {
            assert(front[x] == idx[x]);
        }
        lemma_sum_tf_eq_sum_counts(front, ps, d);
        assert(terms_of(idx).drop_last() =~= terms_of(front));
        assert(terms_of(idx).last() == idx.last().term@);
        assert(idx.last() == idx[idx.len() - 1]);
        assert(entry_counts(idx.last(), ps));
        lemma_entry_tf_eq(idx.last(), ps, d);
    }
}

/// Conservation: for every document, the total term occurrences the final
/// index records equal the number of tokens that document contributed.
pub proof fn lemma_sum_tf_conserves(
    idx: Seq<IndexEntry>,
    ps: Seq<(Seq<char>, Seq<char>)>,
    d: Seq<char>,
)
    requires
        index_represents(idx, ps),
    ensures
        sum_tf(idx, d) == count_doc(ps, d),
{
    assert(terms_of(idx).no_duplicates()) by {
        assert forall|x: int, y: int|
            0 <= x < y < terms_of(idx).len() implies terms_of(idx)[x] != terms_of(idx)[y] by {
            assert(lex_lt(idx[x].term@, idx[y].term@));
            lemma_lex_asymmetric(idx[x].term@, idx[y].term@);
        }
    }
    lemma_sum_tf_eq_sum_counts(idx, ps, d);
    assert forall|k: int|
        0 <= k < ps.len() && (#[trigger] ps[k]).0 == d implies terms_of(idx).contains(
        ps[k].1,
    ) by {
        lemma_count_pair_at(ps, k);
        let x = choose|x: int| 0 <= x < idx.len() && (#[trigger] idx[x]).term@ == ps[k].1;
        assert(terms_of(idx)[x] == ps[k].1);
    }
    lemma_sum_counts_eq_count_doc(terms_of(idx), ps, d);
}

proof fn lemma_count_refs_le_len(idx: Seq<IndexEntry>, d: Seq<char>)
    ensures
        count_refs(idx, d) <= idx.len(),
    decreases idx.len(),
{
    if idx.len() > 0 {
        lemma_count_refs_le_len(idx.drop_last(), d);
    }
}

/// Hands every finalized posting to the two per-document counters exactly
/// once: one distinct-term tick and one frequency amount per posting.
pub fn collect_stats(entries: &Vec<IndexEntry>) -> (r: (StatsMap, StatsMap))
    requires
        forall|x: int| 0 <= x < entries@.len() ==> postings_wf((#[trigger] entries@[x]).postings@),
        forall|d: Seq<char>| #[trigger] sum_tf(entries@, d) <= usize::MAX,
    ensures
        r.0.wf(),
        r.1.wf(),
        forall|d: Seq<char>| r.0@.contains_key(d) <==> count_refs(entries@, d) > 0,
        forall|d: Seq<char>| r.1@.contains_key(d) <==> count_refs(entries@, d) > 0,
        forall|d: Seq<char>| #[trigger] r.0@.contains_key(d) ==> r.0@[d] == count_refs(entries@, d),
        forall|d: Seq<char>| #[trigger] r.1@.contains_key(d) ==> r.1@[d] == sum_tf(entries@, d),
{
    let mut terms_counter = StatsMap::new();
    let mut length_counter = StatsMap::new();
    let n = entries.len();
    let mut x: usize = 0;
    proof {
        assert(entries@.subrange(0, 0) =~= Seq::<IndexEntry>::empty());
    }
    while x < entries.len()
        invariant
            n == entries@.len(),
            x <= entries@.len(),
            forall|y: int|
                0 <= y < entries@.len() ==> postings_wf((#[trigger] entries@[y]).postings@),
            forall|d: Seq<char>| #[trigger] sum_tf(entries@, d) <= usize::MAX,
            terms_counter.wf(),
            length_counter.wf(),
            forall|d: Seq<char>|
                terms_counter@.contains_key(d) <==> count_refs(
                    entries@.subrange(0, x as int),
                    d,
                ) > 0,
            forall|d: Seq<char>|
                length_counter@.contains_key(d) <==> count_refs(
                    entries@.subrange(0, x as int),
                    d,
                ) > 0,
            forall|d: Seq<char>| #[trigger] terms_counter@.contains_key(d)
                ==> terms_counter@[d] == count_refs(entries@.subrange(0, x as int), d),
            forall|d: Seq<char>| #[trigger] length_counter@.contains_key(d)
                ==> length_counter@[d] == sum_tf(entries@.subrange(0, x as int), d),
        decreases entries@.len() - x,
    {
        let ghost prefix = entries@.subrange(0, x as int);
        let ghost p = entries@[x as int].postings@;
        let plen = entries[x].postings.len();
        let mut k: usize = 0;
        proof {
            assert(p.subrange(0, 0) =~= Seq::<PostingEntry>::empty());
        }
        while k < plen
            invariant
                k <= plen,
                n == entries@.len(),
                x < entries@.len(),
                plen == entries@[x as int].postings@.len(),
                p == entries@[x as int].postings@,
                prefix == entries@.subrange(0, x as int),
                forall|y: int|
                    0 <= y < entries@.len() ==> postings_wf((#[trigger] entries@[y]).postings@),
                forall|d: Seq<char>| #[trigger] sum_tf(entries@, d) <= usize::MAX,
                terms_counter.wf(),
                length_counter.wf(),
                forall|d: Seq<char>|
                    terms_counter@.contains_key(d) <==> (count_refs(prefix, d) > 0 || postings_has(
                        p.subrange(0, k as int),
                        d,
                    )),
                forall|d: Seq<char>|
                    length_counter@.contains_key(d) <==> (count_refs(prefix, d) > 0 || postings_has(
                        p.subrange(0, k as int),
                        d,
                    )),
                forall|d: Seq<char>| #[trigger] terms_counter@.contains_key(d)
                    ==> terms_counter@[d] == count_refs(prefix, d) + if postings_has(
                    p.subrange(0, k as int),
                    d,
                ) {
                    1nat
                } else {
                    0nat
                },
                forall|d: Seq<char>| #[trigger] length_counter@.contains_key(d)
                    ==> length_counter@[d] == sum_tf(prefix, d) + postings_tf(
                    p.subrange(0, k as int),
                    d,
                ),
            decreases plen - k,
        {
            let doc = entries[x].postings[k].0.clone();
            let tf = entries[x].postings[k].1;
            let ghost dv = doc@;
            let ghost ppre = p.subrange(0, k as int);
            proof {
                assert(p[k as int].0@ == dv);
                assert(!postings_has(ppre, dv)) by {
                    if postings_has(ppre, dv) {
                        let y = choose|y: int| 0 <= y < ppre.len() && (#[trigger] ppre[y]).0@ == dv;
                        assert(p[y].0@ == p[k as int].0@);
                    }
                }
                lemma_count_refs_le_len(prefix, dv);
                if terms_counter@.contains_key(dv) {
                    assert(terms_counter@[dv] == count_refs(prefix, dv));
                    assert(count_refs(prefix, dv) <= prefix.len());
                }
                // the running length stays within the total recorded for dv
                lemma_sum_tf_prefix_step(entries@, x as int, dv);
                lemma_sum_tf_prefix_le(entries@, x as int + 1, dv);
                lemma_postings_tf_at(p, k as int);
                assert(postings_tf(ppre, dv) == 0) by {
                    assert forall|y: int| 0 <= y < ppre.len() implies (#[trigger] ppre[y]).0@
                        != dv by {}
                    lemma_postings_tf_absent(ppre, dv);
                }
                if length_counter@.contains_key(dv) {
                    assert(length_counter@[dv] == sum_tf(prefix, dv) + postings_tf(ppre, dv));
                    assert(postings_tf(p, dv) == tf as nat);
                    assert(sum_tf(prefix, dv) + tf <= sum_tf(entries@.subrange(0, x as int + 1), dv));
                    assert(sum_tf(prefix, dv) + tf <= sum_tf(entries@, dv));
                } else {
                    assert(count_refs(prefix, dv) == 0);
                    lemma_sum_tf_zero(prefix, dv);
                }
            }
            terms_counter.add(&doc, 1);
            length_counter.add(&doc, tf);
            proof {
                assert(p.subrange(0, k as int + 1) =~= ppre.push(p[k as int]));
                assert(postings_tf(ppre.push(p[k as int]), dv) == postings_tf(ppre, dv)
                    + tf as nat) by {
                    assert(ppre.push(p[k as int]).drop_last() =~= ppre);
                    assert(ppre.push(p[k as int]).last() == p[k as int]);
                }
                assert(postings_tf(ppre, dv) == 0) by {
                    lemma_postings_tf_absent(ppre, dv);
                }
                assert forall|d: Seq<char>|
                    #[trigger] postings_has(p.subrange(0, k as int + 1), d) implies (postings_has(
                    ppre,
                    d,
                ) || d == dv) by {
                    let y = choose|y: int|
                        0 <= y < k + 1 && (#[trigger] p.subrange(0, k as int + 1)[y]).0@ == d;
                    if y < k {
                        assert(ppre[y].0@ == d);
                    }
                }
                assert forall|d: Seq<char>|
                    d != dv implies postings_tf(p.subrange(0, k as int + 1), d) == postings_tf(
                    ppre,
                    d,
                ) by {
                    assert(p.subrange(0, k as int + 1) =~= ppre.push(p[k as int]));
                    assert(ppre.push(p[k as int]).drop_last() =~= ppre);
                    assert(ppre.push(p[k as int]).last() == p[k as int]);
                    assert(p[k as int].0@ == dv);
                }
                assert(postings_has(p.subrange(0, k as int + 1), dv)) by {
                    assert(p.subrange(0, k as int + 1)[k as int].0@ == dv);
                }
            }
            k = k + 1;
        }
        proof {
            assert(p.subrange(0, plen as int) =~= p);
            assert(entries@.subrange(0, x as int + 1).drop_last() =~= prefix);
            assert(entries@.subrange(0, x as int + 1).last() == entries@[x as int]);
            assert forall|d: Seq<char>|
                count_refs(entries@.subrange(0, x as int + 1), d) == count_refs(prefix, d)
                    + if postings_has(p, d) {
                    1nat
                } else {
                    0nat
                } by {}
            assert forall|d: Seq<char>|
                sum_tf(entries@.subrange(0, x as int + 1), d) == sum_tf(prefix, d) + postings_tf(
                    p,
                    d,
                ) by {}
        }
        x = x + 1;
    }
    proof {
        assert(entries@.subrange(0, entries@.len() as int) =~= entries@);
    }
    (terms_counter, length_counter)
}

/// One more entry extends the partial sums by that entry's contribution.
proof fn lemma_sum_tf_prefix_step(idx: Seq<IndexEntry>, x: int, d: Seq<char>)
    requires
        0 <= x < idx.len(),
    ensures
        sum_tf(idx.subrange(0, x + 1), d) == sum_tf(idx.subrange(0, x), d) + postings_tf(
            idx[x].postings@,
            d,
        ),
{
    assert(idx.subrange(0, x + 1).drop_last() =~= idx.subrange(0, x));
    assert(idx.subrange(0, x + 1).last() == idx[x]);
}

/// A partial sum never exceeds the full one.
proof fn lemma_sum_tf_prefix_le(idx: Seq<IndexEntry>, y: int, d: Seq<char>)
    requires
        0 <= y <= idx.len(),
    ensures
        sum_tf(idx.subrange(0, y), d) <= sum_tf(idx, d),
    decreases idx.len() - y,
{
    if y == idx.len() {
        assert(idx.subrange(0, y) =~= idx);
    } else {
        lemma_sum_tf_prefix_step(idx, y, d);
        lemma_sum_tf_prefix_le(idx, y + 1, d);
    }
}

/// Everything one indexing run produces: the document count for the header,
/// the sorted index entries, and the two per-document counters.
pub struct IndexBuild {
    pub document_count: usize,
    pub entries: Vec<IndexEntry>,
    pub terms_counter: StatsMap,
    pub length_counter: StatsMap,
}

/// The two counters record, per document, its distinct-term count and its
/// total term occurrences, exactly as the finalized index `idx` has them.
pub open spec fn stats_ok(terms_counter: StatsMap, length_counter: StatsMap, idx: Seq<IndexEntry>) -> bool {
    &&& terms_counter.wf()
    &&& length_counter.wf()
    &&& forall|d: Seq<char>| terms_counter@.contains_key(d) <==> count_refs(idx, d) > 0
    &&& forall|d: Seq<char>| length_counter@.contains_key(d) <==> count_refs(idx, d) > 0
    &&& forall|d: Seq<char>| #[trigger] terms_counter@.contains_key(d) ==> terms_counter@[d]
        == count_refs(idx, d)
    &&& forall|d: Seq<char>| #[trigger] length_counter@.contains_key(d) ==> length_counter@[d]
        == sum_tf(idx, d)
}

/// The full contract of an indexing run over the token sequence `ps`.
pub open spec fn build_ok(r: IndexBuild, ps: Seq<(Seq<char>, Seq<char>)>) -> bool {
    &&& index_represents(r.entries@, ps)
    &&& r.document_count as nat == doc_count_of(ps)
    &&& stats_ok(r.terms_counter, r.length_counter, r.entries@)
}

/// Two token sequences with the same pair counts are indexed alike.
proof fn lemma_represents_transfer(
    idx: Seq<IndexEntry>,
    ps1: Seq<(Seq<char>, Seq<char>)>,
    ps2: Seq<(Seq<char>, Seq<char>)>,
)
    requires
        index_represents(idx, ps1),
        forall|d: Seq<char>, t: Seq<char>|
            #[trigger] count_pair(ps1, d, t) == count_pair(ps2, d, t),
    ensures
        index_represents(idx, ps2),
{
    assert forall|i: int| 0 <= i < idx.len() implies entry_counts(#[trigger] idx[i], ps2) by {
        assert(entry_counts(idx[i], ps1));
        assert forall|k: int|
            0 <= k < idx[i].postings@.len() implies (#[trigger] idx[i].postings@[k]).1 as nat
            == count_pair(ps2, idx[i].postings@[k].0@, idx[i].term@) by {
            assert(count_pair(ps1, idx[i].postings@[k].0@, idx[i].term@) == count_pair(
                ps2,
                idx[i].postings@[k].0@,
                idx[i].term@,
            ));
        }
        assert forall|d: Seq<char>| count_pair(ps2, d, idx[i].term@) > 0 implies exists|k: int|
            0 <= k < idx[i].postings@.len() && (#[trigger] idx[i].postings@[k]).0@ == d by {
            assert(count_pair(ps1, d, idx[i].term@) == count_pair(ps2, d, idx[i].term@));
        }
    }
    assert forall|d: Seq<char>, t: Seq<char>| count_pair(ps2, d, t) > 0 implies exists|i: int|
        0 <= i < idx.len() && (#[trigger] idx[i]).term@ == t by {
        assert(count_pair(ps1, d, t) == count_pair(ps2, d, t));
    }
}

/// Materialize, sort by term, scan once, aggregate each term group, then
/// count documents and collect the per-document statistics.
pub fn create_index_simple(tokens: &Vec<Token>) -> (r: IndexBuild)
    ensures
        build_ok(r, pairs_of(tokens@)),
{
    let ghost ps = pairs_of(tokens@);
    let sorted = sort_tokens(tokens);
    let entries = build_from_sorted(&sorted);
    proof {
        lemma_represents_transfer(entries@, pairs_of(sorted@), ps);
        assert forall|d: Seq<char>| #[trigger] sum_tf(entries@, d) <= usize::MAX by {
            lemma_sum_tf_bound(entries@, ps, d);
            lemma_count_doc_le_len(ps, d);
            assert(ps.len() == tokens@.len());
        }
        assert forall|x: int|
            0 <= x < entries@.len() implies postings_wf((#[trigger] entries@[x]).postings@) by {
            assert(entry_counts(entries@[x], ps));
        }
    }
    let document_count = count_documents(tokens);
    let (terms_counter, length_counter) = collect_stats(&entries);
    IndexBuild { document_count, entries, terms_counter, length_counter }
}

/// Inserts one token into a block dictionary kept sorted by term.
fn insert_token(block: &mut Vec<IndexEntry>, tok: &Token, Ghost(ps0): Ghost<Seq<(Seq<char>, Seq<char>)>>)
    requires
        index_represents(old(block)@, ps0),
        ps0.len() < usize::MAX,
    ensures
        index_represents(final(block)@, ps0.push(pair_of(*tok))),
{
    let ghost ps = ps0.push(pair_of(*tok));
    let ghost dv = tok.doc_id@;
    let ghost tv = tok.term@;
    let mut k: usize = 0;
    let mut found = false;
    while k < block.len() && !found
        invariant
            k <= block@.len(),
            block@ == old(block)@,
            index_represents(block@, ps0),
            ps0.len() < usize::MAX,
            !found ==> forall|x: int| 0 <= x < k ==> lex_lt((#[trigger] block@[x]).term@, tok.term@),
            found ==> k < block@.len() && block@[k as int].term@ == tok.term@,
        ensures
            k <= block@.len(),
            found ==> k < block@.len() && block@[k as int].term@ == tok.term@,
            !found ==> forall|x: int| 0 <= x < k ==> lex_lt((#[trigger] block@[x]).term@, tok.term@),
            !found ==> (k == block@.len() || lex_lt(tok.term@, block@[k as int].term@)),
        decreases block@.len() - k + if found {
            0int
        } else {
            1int
        },
    {
        match str_compare(block[k].term.as_str(), tok.term.as_str()) {
            TermOrder::Less => {
                k = k + 1;
            },
            TermOrder::Equal => {
                found = true;
            },
            TermOrder::Greater => {
                break ;
            },
        }
    }
    let ghost block0 = block@;
    if found {
        proof {
            assert(entry_counts(block0[k as int], ps0));
        }
        let mut e = block.remove(k);
        let ghost p0 = e.postings@;
        let mut q: usize = 0;
        let mut has_doc = false;
        while q < e.postings.len() && !has_doc
            invariant
                q <= e.postings@.len(),
                e.postings@ == p0,
                e.term@ == tv,
                !has_doc ==> forall|x: int| 0 <= x < q ==> (#[trigger] p0[x]).0@ != tok.doc_id@,
                has_doc ==> q < p0.len() && p0[q as int].0@ == tok.doc_id@,
            decreases p0.len() - q + if has_doc {
                0int
            } else {
                1int
            },
        {
            if e.postings[q].0 == tok.doc_id {
                has_doc = true;
            } else {
                q = q + 1;
            }
        }
        if has_doc {
            proof {
                assert(entry_counts(block0[k as int], ps0));
                assert(p0[q as int].1 as nat == count_pair(ps0, dv, tv));
                lemma_count_pair_le_len(ps0, dv, tv);
            }
            let (doc, tf) = e.postings.remove(q);
            let new_tf = tf + 1;
            e.postings.insert(q, (doc, new_tf));
            proof {
                assert(e.postings@ =~= p0.update(q as int, (p0[q as int].0, new_tf)));
            }
        } else {
            proof {
                assert(count_pair(ps0, dv, tv) == 0) by {
                    if count_pair(ps0, dv, tv) > 0 {
                        let x = choose|x: int|
                            0 <= x < p0.len() && (#[trigger] p0[x]).0@ == dv;
                        assert(false);
                    }
                }
            }
            e.postings.push((tok.doc_id.clone(), 1));
        }
        let ghost p1 = e.postings@;
        block.insert(k, e);
        proof {
            assert(block@ =~= block0.update(k as int, block@[k as int]));
            assert(block@[k as int].term@ == tv);
            assert(block@[k as int].postings@ == p1);
            assert forall|x: int| 0 <= x < block@.len() && x != k implies block@[x]
                == block0[x] by {}
            // order is unchanged
            assert forall|x: int, y: int| 0 <= x < y < block@.len() implies lex_lt(
                (#[trigger] block@[x]).term@,
                (#[trigger] block@[y]).term@,
            ) by {
                assert(block@[x].term@ == block0[x].term@);
                assert(block@[y].term@ == block0[y].term@);
            }
            // the touched entry is exact for the extended sequence
            assert(entry_counts(block@[k as int], ps)) by {
                assert(postings_wf(p1)) by {
                    if has_doc {
                        assert forall|x: int, y: int| 0 <= x < y < p1.len() implies (
                        #[trigger] p1[x]).0@ != (#[trigger] p1[y]).0@ by {
                            assert(p1[x].0@ == p0[x].0@);
                            assert(p1[y].0@ == p0[y].0@);
                        }
                    } else {
                        assert forall|x: int, y: int| 0 <= x < y < p1.len() implies (
                        #[trigger] p1[x]).0@ != (#[trigger] p1[y]).0@ by {
                            if y < p1.len() - 1 {
                                assert(p1[x] == p0[x]);
                                assert(p1[y] == p0[y]);
                            } else {
                                assert(p1[x] == p0[x]);
                                assert(p1[y].0@ == dv);
                            }
                        }
                    }
                }
                assert forall|x: int| 0 <= x < p1.len() implies (#[trigger] p1[x]).1 as nat
                    == count_pair(ps, p1[x].0@, tv) by {
                    lemma_count_pair_push(ps0, pair_of(*tok), p1[x].0@, tv);
                    if has_doc {
                        assert(p1[x].0@ == p0[x].0@);
                        if x != q {
                            assert(p0[x].0@ != p0[q as int].0@);
                        }
                    } else {
                        if x < p1.len() - 1 {
                            assert(p1[x] == p0[x]);
                            assert(p0[x].0@ != dv);
                        }
                    }
                }
                assert forall|d: Seq<char>| count_pair(ps, d, tv) > 0 implies exists|x: int|
                    0 <= x < p1.len() && (#[trigger] p1[x]).0@ == d by {
                    lemma_count_pair_push(ps0, pair_of(*tok), d, tv);
                    if d == dv {
                        if has_doc {
                            assert(p1[q as int].0@ == dv);
                        } else {
                            assert(p1[p1.len() - 1].0@ == dv);
                        }
                    } else {
                        assert(count_pair(ps0, d, tv) > 0);
                        let x = choose|x: int|
                            0 <= x < p0.len() && (#[trigger] p0[x]).0@ == d;
                        if has_doc {
                            assert(p1[x].0@ == d);
                        } else {
                            assert(p1[x].0@ == d);
                        }
                    }
                }
            }
            // untouched entries are exact: their terms differ from the token's
            assert forall|x: int| 0 <= x < block@.len() implies entry_counts(
                #[trigger] block@[x],
                ps,
            ) by {
                if x != k {
                    assert(block@[x] == block0[x]);
                    assert(entry_counts(block0[x], ps0));
                    assert(block0[x].term@ != tv) by {
                        if x < k {
                            lemma_lex_asymmetric(block0[x].term@, block0[k as int].term@);
                        } else {
                            lemma_lex_asymmetric(block0[k as int].term@, block0[x].term@);
                        }
                    }
                    assert forall|y: int|
                        0 <= y < block@[x].postings@.len() implies (#[trigger] (block@[x].postings@[y])).1
                        as nat == count_pair(ps, block@[x].postings@[y].0@, block@[x].term@) by {
                        lemma_count_pair_push(
                            ps0,
                            pair_of(*tok),
                            block@[x].postings@[y].0@,
                            block@[x].term@,
                        );
                    }
                    assert forall|d: Seq<char>|
                        count_pair(ps, d, block@[x].term@) > 0 implies exists|y: int|
                        0 <= y < block@[x].postings@.len() && (#[trigger] (block@[x].postings@[y])).0@
                        == d by {
                        lemma_count_pair_push(ps0, pair_of(*tok), d, block@[x].term@);
                    }
                }
            }
            // completeness
            assert forall|d: Seq<char>, t: Seq<char>| count_pair(ps, d, t) > 0 implies exists|x: int|
                0 <= x < block@.len() && (#[trigger] block@[x]).term@ == t by {
                lemma_count_pair_push(ps0, pair_of(*tok), d, t);
                if count_pair(ps0, d, t) > 0 {
                    let x = choose|x: int|
                        0 <= x < block0.len() && (#[trigger] block0[x]).term@ == t;
                    assert(block@[x].term@ == t);
                } else {
                    assert(t == tv);
                    assert(block@[k as int].term@ == t);
                }
            }
        }
    } else {
        let mut postings: Vec<PostingEntry> = Vec::new();
        postings.push((tok.doc_id.clone(), 1));
        let entry = IndexEntry { term: tok.term.clone(), postings };
        block.insert(k, entry);
        proof {
            assert(block@ =~= block0.insert(k as int, entry));
            assert(block@[k as int].term@ == tv);
            assert(block@[k as int].postings@.len() == 1);
            assert(block@[k as int].postings@[0].0@ == dv);
            assert(block@[k as int].postings@[0].1 == 1usize);
            // no token in ps0 carries this term
            assert forall|x: int| 0 <= x < block0.len() implies (#[trigger] block0[x]).term@
                != tv by {
                if x < k {
                    lemma_lex_asymmetric(block0[x].term@, tv);
                } else {
                    assert(lex_lt(tv, block0[k as int].term@));
                    if x > k {
                        lemma_lex_transitive(tv, block0[k as int].term@, block0[x].term@);
                    }
                    lemma_lex_asymmetric(tv, block0[x].term@);
                }
            }
            assert forall|d: Seq<char>| #[trigger] count_pair(ps0, d, tv) == 0 by {
                if count_pair(ps0, d, tv) > 0 {
                    let x = choose|x: int|
                        0 <= x < block0.len() && (#[trigger] block0[x]).term@ == tv;
                }
            }
            // order after the insertion
            assert forall|x: int, y: int| 0 <= x < y < block@.len() implies lex_lt(
                (#[trigger] block@[x]).term@,
                (#[trigger] block@[y]).term@,
            ) by {
                if x == k && y > k {
                    assert(block@[y] == block0[y - 1]);
                    if y - 1 > k {
                        lemma_lex_transitive(tv, block0[k as int].term@, block0[y - 1].term@);
                    }
                } else if y == k && x < k {
                    assert(block@[x] == block0[x]);
                } else if x < k && y > k {
                    assert(block@[x] == block0[x]);
                    assert(block@[y] == block0[y - 1]);
                    if y - 1 == k {
                        lemma_lex_transitive(block0[x].term@, tv, block0[k as int].term@);
                    } else {
                        lemma_lex_transitive(tv, block0[k as int].term@, block0[y - 1].term@);
                        lemma_lex_transitive(block0[x].term@, tv, block0[y - 1].term@);
                    }
                } else if x < k && y < k {
                    assert(block@[x] == block0[x]);
                    assert(block@[y] == block0[y]);
                } else {
                    assert(block@[x] == block0[x - 1]);
                    assert(block@[y] == block0[y - 1]);
                }
            }
            // every entry exact for the extended sequence
            assert forall|x: int| 0 <= x < block@.len() implies entry_counts(
                #[trigger] block@[x],
                ps,
            ) by {
                if x == k {
                    lemma_count_pair_push(ps0, pair_of(*tok), dv, tv);
                    assert(block@[k as int].postings@[0].1 as nat == count_pair(ps, dv, tv));
                    assert forall|d: Seq<char>| count_pair(ps, d, tv) > 0 implies exists|y: int|
                        0 <= y < block@[k as int].postings@.len() && (#[trigger] (block@[
                        k as int].postings@[y])).0@ == d by {
                        lemma_count_pair_push(ps0, pair_of(*tok), d, tv);
                        assert(d == dv);
                        assert(block@[k as int].postings@[0].0@ == d);
                    }
                } else {
                    let x0 = if x < k {
                        x
                    } else {
                        x - 1
                    };
                    assert(block@[x] == block0[x0]);
                    assert(entry_counts(block0[x0], ps0));
                    assert(block0[x0].term@ != tv);
                    assert forall|y: int|
                        0 <= y < block@[x].postings@.len() implies (#[trigger] (block@[x].postings@[y])).1
                        as nat == count_pair(ps, block@[x].postings@[y].0@, block@[x].term@) by {
                        lemma_count_pair_push(
                            ps0,
                            pair_of(*tok),
                            block@[x].postings@[y].0@,
                            block@[x].term@,
                        );
                    }
                    assert forall|d: Seq<char>|
                        count_pair(ps, d, block@[x].term@) > 0 implies exists|y: int|
                        0 <= y < block@[x].postings@.len() && (#[trigger] (block@[x].postings@[y])).0@
                        == d by {
                        lemma_count_pair_push(ps0, pair_of(*tok), d, block@[x].term@);
                    }
                }
            }
            // completeness
            assert forall|d: Seq<char>, t: Seq<char>| count_pair(ps, d, t) > 0 implies exists|x: int|
                0 <= x < block@.len() && (#[trigger] block@[x]).term@ == t by {
                lemma_count_pair_push(ps0, pair_of(*tok), d, t);
                if count_pair(ps0, d, t) > 0 {
                    let x = choose|x: int|
                        0 <= x < block0.len() && (#[trigger] block0[x]).term@ == t;
                    if x < k {
                        assert(block@[x].term@ == t);
                    } else {
                        assert(block@[x + 1].term@ == t);
                    }
                } else {
                    assert(t == tv);
                    assert(block@[k as int].term@ == t);
                }
            }
        }
    }
}

/// Builds one size-capped block from the token stream, starting at `start`:
/// a term-sorted partial index over the tokens it consumed. Returns the
/// block and the position of the first token it did not consume.
pub fn spimi_invert(tokens: &Vec<Token>, start: usize, max_tokens_per_block: usize) -> (r: (
    Vec<IndexEntry>,
    usize,
))
    requires
        start < tokens@.len(),
        max_tokens_per_block >= 1,
    ensures
        start < r.1 <= tokens@.len(),
        r.1 - start <= max_tokens_per_block,
        r.1 == if start + max_tokens_per_block <= tokens@.len() {
            (start + max_tokens_per_block) as usize
        } else {
            tokens@.len() as usize
        },
        index_represents(r.0@, pairs_of(tokens@.subrange(start as int, r.1 as int))),
{
    let mut block: Vec<IndexEntry> = Vec::new();
    let mut cur = start;
    proof {
        assert(pairs_of(tokens@.subrange(start as int, start as int)) =~= Seq::<
            (Seq<char>, Seq<char>),
        >::empty());
    }
    while cur < tokens.len() && cur - start < max_tokens_per_block
        invariant
            start <= cur <= tokens@.len(),
            cur - start <= max_tokens_per_block,
            index_represents(block@, pairs_of(tokens@.subrange(start as int, cur as int))),
        decreases tokens@.len() - cur,
    {
        proof {
            assert(pairs_of(tokens@.subrange(start as int, cur as int)).len() == cur - start);
            assert(pairs_of(tokens@.subrange(start as int, cur + 1)) =~= pairs_of(
                tokens@.subrange(start as int, cur as int),
            ).push(pair_of(tokens@[cur as int])));
        }
        insert_token(
            &mut block,
            &tokens[cur],
            Ghost(pairs_of(tokens@.subrange(start as int, cur as int))),
        );
        cur = cur + 1;
    }
    (block, cur)
}

/// Tokens not yet consumed across all block streams.
spec fn remaining_sum(blocks: Seq<Vec<IndexEntry>>, pos: Seq<usize>) -> int
    decreases blocks.len(),
{
    if blocks.len() == 0 {
        0
    } else {
        remaining_sum(blocks.drop_last(), pos.drop_last()) + (blocks.last()@.len()
            - pos.last() as int)
    }
}

proof fn lemma_remaining_sum_lt(
    blocks: Seq<Vec<IndexEntry>>,
    pos0: Seq<usize>,
    pos1: Seq<usize>,
    i: int,
)
    requires
        blocks.len() == pos0.len() == pos1.len(),
        forall|b: int| 0 <= b < blocks.len() ==> (#[trigger] pos0[b]) <= pos1[b],
        0 <= i < blocks.len(),
        pos0[i] < pos1[i],
    ensures
        remaining_sum(blocks, pos1) < remaining_sum(blocks, pos0),
    decreases blocks.len(),
{
    let bl = blocks.drop_last();
    let p0 = pos0.drop_last();
    let p1 = pos1.drop_last();
    assert forall|b: int| 0 <= b < bl.len() implies (#[trigger] p0[b]) <= p1[b] by {
        assert(p0[b] == pos0[b]);
        assert(p1[b] == pos1[b]);
    }
    if i == blocks.len() - 1 {
        lemma_remaining_sum_le(bl, p0, p1);
        assert(pos0.last() == pos0[i]);
        assert(pos1.last() == pos1[i]);
    } else {
        lemma_remaining_sum_lt(bl, p0, p1, i);
        assert(pos0.last() == pos0[blocks.len() - 1]);
        assert(pos1.last() == pos1[blocks.len() - 1]);
    }
}

proof fn lemma_remaining_sum_nonneg(blocks: Seq<Vec<IndexEntry>>, pos: Seq<usize>)
    requires
        pos.len() == blocks.len(),
        forall|b: int| 0 <= b < blocks.len() ==> (#[trigger] pos[b]) <= blocks[b]@.len(),
    ensures
        remaining_sum(blocks, pos) >= 0,
    decreases blocks.len(),
{
    if blocks.len() > 0 {
        let bl = blocks.drop_last();
        let p = pos.drop_last();
        assert forall|b: int| 0 <= b < bl.len() implies (#[trigger] p[b]) <= bl[b]@.len() by {
            assert(p[b] == pos[b]);
            assert(bl[b] == blocks[b]);
        }
        lemma_remaining_sum_nonneg(bl, p);
        assert(pos.last() == pos[blocks.len() - 1]);
        assert(blocks.last() == blocks[blocks.len() - 1]);
    }
}

proof fn lemma_remaining_sum_le(blocks: Seq<Vec<IndexEntry>>, pos0: Seq<usize>, pos1: Seq<usize>)
    requires
        blocks.len() == pos0.len() == pos1.len(),
        forall|b: int| 0 <= b < blocks.len() ==> (#[trigger] pos0[b]) <= pos1[b],
    ensures
        remaining_sum(blocks, pos1) <= remaining_sum(blocks, pos0),
    decreases blocks.len(),
{
    if blocks.len() > 0 {
        let bl = blocks.drop_last();
        let p0 = pos0.drop_last();
        let p1 = pos1.drop_last();
        assert forall|b: int| 0 <= b < bl.len() implies (#[trigger] p0[b]) <= p1[b] by {
            assert(p0[b] == pos0[b]);
            assert(p1[b] == pos1[b]);
        }
        lemma_remaining_sum_le(bl, p0, p1);
        assert(pos0.last() == pos0[blocks.len() - 1]);
        assert(pos1.last() == pos1[blocks.len() - 1]);
    }
}

/// The postings of an entry record exactly the counts of its term, so the
/// frequency it stores for any document is that document's count.
proof fn lemma_entry_tf_eq(e: IndexEntry, psb: Seq<(Seq<char>, Seq<char>)>, d: Seq<char>)
    requires
        entry_counts(e, psb),
    ensures
        postings_tf(e.postings@, d) == count_pair(psb, d, e.term@),
{
    let p = e.postings@;
    if postings_has(p, d) {
        let k = choose|k: int| 0 <= k < p.len() && (#[trigger] p[k]).0@ == d;
        lemma_postings_tf_at(p, k);
    } else {
        assert forall|k: int| 0 <= k < p.len() implies (#[trigger] p[k]).0@ != d by {}
        lemma_postings_tf_absent(p, d);
        if count_pair(psb, d, e.term@) > 0 {
            let k = choose|k: int| 0 <= k < p.len() && (#[trigger] p[k]).0@ == d;
        }
    }
}

/// An index with no entry for term `t` covers no `(d, t)` tokens.
proof fn lemma_no_term_no_count(
    idx: Seq<IndexEntry>,
    psb: Seq<(Seq<char>, Seq<char>)>,
    d: Seq<char>,
    t: Seq<char>,
)
    requires
        index_represents(idx, psb),
        forall|x: int| 0 <= x < idx.len() ==> (#[trigger] idx[x]).term@ != t,
    ensures
        count_pair(psb, d, t) == 0,
{
    if count_pair(psb, d, t) > 0 {
        let x = choose|x: int| 0 <= x < idx.len() && (#[trigger] idx[x]).term@ == t;
    }
}

/// Merges one block entry's postings into the accumulating postings of the
/// current output term, summing frequencies for a document already present.
#[verifier::rlimit(80)]
#[verifier::spinoff_prover]
fn merge_postings_into(
    acc: &mut Vec<PostingEntry>,
    e: &IndexEntry,
    Ghost(cpre): Ghost<Seq<(Seq<char>, Seq<char>)>>,
    Ghost(psb): Ghost<Seq<(Seq<char>, Seq<char>)>>,
)
    requires
        entry_counts(*e, psb),
        postings_wf(old(acc)@),
        forall|k: int|
            0 <= k < old(acc)@.len() ==> (#[trigger] old(acc)@[k]).1 as nat == count_pair(
                cpre,
                old(acc)@[k].0@,
                e.term@,
            ),
        forall|d: Seq<char>|
            #[trigger] count_pair(cpre, d, e.term@) > 0 ==> exists|k: int|
                0 <= k < old(acc)@.len() && old(acc)@[k].0@ == d,
        forall|d: Seq<char>|
            #[trigger] count_pair(cpre, d, e.term@) + count_pair(psb, d, e.term@) <= usize::MAX,
    ensures
        postings_wf(final(acc)@),
        forall|k: int|
            0 <= k < final(acc)@.len() ==> (#[trigger] final(acc)@[k]).1 as nat == count_pair(
                cpre,
                final(acc)@[k].0@,
                e.term@,
            ) + count_pair(psb, final(acc)@[k].0@, e.term@),
        forall|d: Seq<char>|
            count_pair(cpre, d, e.term@) + #[trigger] count_pair(psb, d, e.term@) > 0 ==> exists|
                k: int,
            |
                0 <= k < final(acc)@.len() && final(acc)@[k].0@ == d,
        final(acc)@.len() >= 1,
{
    let ghost tv = e.term@;
    let ghost ep = e.postings@;
    let plen = e.postings.len();
    let mut q: usize = 0;
    proof {
        assert(ep.subrange(0, 0) =~= Seq::<PostingEntry>::empty());
    }
    while q < plen
        invariant
            q <= plen,
            plen == ep.len(),
            ep == e.postings@,
            tv == e.term@,
            entry_counts(*e, psb),
            postings_wf(acc@),
            forall|d: Seq<char>|
                #[trigger] count_pair(cpre, d, tv) + count_pair(psb, d, tv) <= usize::MAX,
            forall|k: int|
                0 <= k < acc@.len() ==> (#[trigger] acc@[k]).1 as nat == count_pair(
                    cpre,
                    acc@[k].0@,
                    tv,
                ) + postings_tf(ep.subrange(0, q as int), acc@[k].0@),
            forall|d: Seq<char>|
                (#[trigger] count_pair(cpre, d, tv) > 0 || postings_has(
                    ep.subrange(0, q as int),
                    d,
                )) ==> exists|k: int| 0 <= k < acc@.len() && acc@[k].0@ == d,
            acc@.len() >= old(acc)@.len(),
            q > 0 ==> acc@.len() >= 1,
        decreases plen - q,
    {
        let doc = e.postings[q].0.clone();
        let tf = e.postings[q].1;
        let ghost dv = doc@;
        let ghost ppre = ep.subrange(0, q as int);
        proof {
            assert(ep[q as int].0@ == dv);
            assert(ep[q as int].1 as nat == count_pair(psb, dv, tv));
            assert(!postings_has(ppre, dv)) by {
                if postings_has(ppre, dv) {
                    let y = choose|y: int| 0 <= y < ppre.len() && (#[trigger] ppre[y]).0@ == dv;
                    assert(ep[y].0@ == ep[q as int].0@);
                }
            }
            assert(postings_tf(ppre, dv) == 0) by {
                assert forall|y: int| 0 <= y < ppre.len() implies (#[trigger] ppre[y]).0@ != dv by {}
                lemma_postings_tf_absent(ppre, dv);
            }
            assert(ep.subrange(0, q as int + 1) =~= ppre.push(ep[q as int]));
            assert(ppre.push(ep[q as int]).drop_last() =~= ppre);
            assert(ppre.push(ep[q as int]).last() == ep[q as int]);
        }
        let mut j: usize = 0;
        let mut found = false;
        while j < acc.len() && !found
            invariant
                j <= acc@.len(),
                !found ==> forall|k: int| 0 <= k < j ==> (#[trigger] acc@[k]).0@ != doc@,
                found ==> j < acc@.len() && acc@[j as int].0@ == doc@,
            decreases acc@.len() - j + if found {
                0int
            } else {
                1int
            },
        {
            if acc[j].0 == doc {
                found = true;
            } else {
                j = j + 1;
            }
        }
        let ghost acc0 = acc@;
        if found {
            proof {
                assert(acc0[j as int].1 as nat == count_pair(cpre, dv, tv) + postings_tf(
                    ppre,
                    dv,
                ));
                assert(count_pair(cpre, dv, tv) + count_pair(psb, dv, tv) <= usize::MAX);
            }
            let (d2, old_tf) = acc.remove(j);
            let new_tf = old_tf + tf;
            acc.insert(j, (d2, new_tf));
            proof {
                assert(acc@ =~= acc0.update(j as int, (acc0[j as int].0, new_tf)));
                assert forall|k: int| 0 <= k < acc@.len() implies (#[trigger] acc@[k]).1 as nat
                    == count_pair(cpre, acc@[k].0@, tv) + postings_tf(
                    ep.subrange(0, q as int + 1),
                    acc@[k].0@,
                ) by {
                    assert(acc@[k].0@ == acc0[k].0@);
                    if k != j {
                        assert(acc0[k].0@ != acc0[j as int].0@);
                    }
                }
                assert forall|d: Seq<char>|
                    (#[trigger] count_pair(cpre, d, tv) > 0 || postings_has(
                        ep.subrange(0, q as int + 1),
                        d,
                    )) implies exists|k: int| 0 <= k < acc@.len() && acc@[k].0@ == d by {
                    if d == dv {
                        assert(acc@[j as int].0@ == d);
                    } else {
                        if postings_has(ep.subrange(0, q as int + 1), d) {
                            let y = choose|y: int|
                                0 <= y < q + 1 && (#[trigger] ep.subrange(0, q as int + 1)[y]).0@
                                    == d;
                            assert(ep.subrange(0, q as int + 1)[y] == ep[y]);
                            assert(y < q) by {
                                if y == q {
                                    assert(ep[q as int].0@ == dv);
                                }
                            }
                            assert(ppre[y] == ep[y]);
                            assert(postings_has(ppre, d)) by {
                                assert(ppre[y].0@ == d);
                            }
                        }
                        let k = choose|k: int| 0 <= k < acc0.len() && (#[trigger] acc0[k]).0@ == d;
                        assert(acc@[k].0@ == d);
                    }
                }
            }
        } else {
            acc.push((doc, tf));
            proof {
                assert(acc@.len() == acc0.len() + 1);
                assert forall|k: int| 0 <= k < acc0.len() implies acc@[k] == acc0[k] by {}
                assert(acc@[acc@.len() - 1].0@ == dv);
                assert(acc@[acc@.len() - 1].1 == tf);
                assert(count_pair(cpre, dv, tv) == 0) by {
                    if count_pair(cpre, dv, tv) > 0 {
                        let k = choose|k: int| 0 <= k < acc0.len() && acc0[k].0@ == dv;
                        assert(acc0[k].0@ != dv);
                    }
                }
                assert(tf >= 1) by {
                    assert(ep[q as int].1 >= 1);
                }
                assert forall|x: int, y: int| 0 <= x < y < acc@.len() implies (#[trigger] acc@[x]).0@
                    != (#[trigger] acc@[y]).0@ by {
                    if y < acc@.len() - 1 {
                        assert(acc@[x] == acc0[x]);
                        assert(acc@[y] == acc0[y]);
                    } else {
                        assert(acc@[x] == acc0[x]);
                        assert(acc0[x].0@ != dv);
                    }
                }
                assert forall|k: int| 0 <= k < acc@.len() implies (#[trigger] acc@[k]).1 as nat
                    == count_pair(cpre, acc@[k].0@, tv) + postings_tf(
                    ep.subrange(0, q as int + 1),
                    acc@[k].0@,
                ) by {
                    if k < acc@.len() - 1 {
                        assert(acc@[k] == acc0[k]);
                        assert(acc0[k].0@ != dv);
                    }
                }
                assert forall|d: Seq<char>|
                    (#[trigger] count_pair(cpre, d, tv) > 0 || postings_has(
                        ep.subrange(0, q as int + 1),
                        d,
                    )) implies exists|k: int| 0 <= k < acc@.len() && acc@[k].0@ == d by {
                    if d == dv {
                        assert(acc@[acc@.len() - 1].0@ == d);
                    } else {
                        if postings_has(ep.subrange(0, q as int + 1), d) {
                            let y = choose|y: int|
                                0 <= y < q + 1 && (#[trigger] ep.subrange(0, q as int + 1)[y]).0@
                                    == d;
                            assert(ep.subrange(0, q as int + 1)[y] == ep[y]);
                            assert(y < q) by {
                                if y == q {
                                    assert(ep[q as int].0@ == dv);
                                }
                            }
                            assert(ppre[y] == ep[y]);
                            assert(postings_has(ppre, d)) by {
                                assert(ppre[y].0@ == d);
                            }
                        }
                        let k = choose|k: int| 0 <= k < acc0.len() && (#[trigger] acc0[k]).0@ == d;
                        assert(acc@[k].0@ == d);
                    }
                }
            }
        }
        q = q + 1;
    }
    proof {
        assert(ep.subrange(0, plen as int) =~= ep);
        assert forall|k: int| 0 <= k < acc@.len() implies (#[trigger] acc@[k]).1 as nat
            == count_pair(cpre, acc@[k].0@, tv) + count_pair(psb, acc@[k].0@, tv) by {
            lemma_entry_tf_eq(*e, psb, acc@[k].0@);
        }
        assert forall|d: Seq<char>|
            count_pair(cpre, d, tv) + #[trigger] count_pair(psb, d, tv) > 0 implies exists|k: int|
            0 <= k < acc@.len() && acc@[k].0@ == d by {
            if count_pair(psb, d, tv) > 0 {
                let y = choose|y: int| 0 <= y < ep.len() && (#[trigger] ep[y]).0@ == d;
                assert(postings_has(ep, d));
            }
        }
        assert(acc@.len() >= 1) by {
            assert(ep.len() >= 1);
            assert(ep[0].1 >= 1);
            assert(ep[0].1 as nat == count_pair(psb, ep[0].0@, tv));
            assert(count_pair(cpre, ep[0].0@, tv) + count_pair(psb, ep[0].0@, tv) > 0);
        }
    }
}

/// Every remaining (unconsumed) block entry carries a term strictly after
/// every term already written to the output.
spec fn frontier(out: Seq<IndexEntry>, blocks: Seq<Vec<IndexEntry>>, pos: Seq<usize>) -> bool {
    forall|b: int, k: int, x: int|
        #![trigger blocks[b]@[k], out[x]]
        0 <= b < blocks.len() && pos[b] <= k < blocks[b]@.len() && 0 <= x < out.len() ==> lex_lt(
            out[x].term@,
            blocks[b]@[k].term@,
        )
}

/// Every consumed block entry's term has been written to the output.
spec fn consumed_emitted(out: Seq<IndexEntry>, blocks: Seq<Vec<IndexEntry>>, pos: Seq<usize>) -> bool {
    forall|b: int, k: int|
        #![trigger blocks[b]@[k]]
        0 <= b < blocks.len() && 0 <= k < pos[b] ==> exists|x: int|
            0 <= x < out.len() && out[x].term@ == blocks[b]@[k].term@
}

/// Every term with an occurrence is either already written or still ahead
/// in some block stream.
spec fn coverage(
    out: Seq<IndexEntry>,
    blocks: Seq<Vec<IndexEntry>>,
    pos: Seq<usize>,
    ps: Seq<(Seq<char>, Seq<char>)>,
) -> bool {
    forall|d: Seq<char>, t: Seq<char>|
        #[trigger] count_pair(ps, d, t) > 0 ==> (exists|x: int|
            0 <= x < out.len() && out[x].term@ == t) || (exists|b: int, k: int|
            0 <= b < blocks.len() && pos[b] <= k < blocks[b]@.len() && blocks[b]@[k].term@ == t)
}

spec fn pos_wf(pos: Seq<usize>, blocks: Seq<Vec<IndexEntry>>) -> bool {
    pos.len() == blocks.len() && forall|b: int|
        0 <= b < blocks.len() ==> (#[trigger] pos[b]) <= blocks[b]@.len()
}

/// Merges the term-sorted blocks into one final index: repeatedly find the
/// lexicographically smallest current term among the still-open streams,
/// sum the frequencies its postings record per document across those
/// streams, emit one combined entry, and advance every contributing stream.
pub fn merge_blocks(
    blocks: &Vec<Vec<IndexEntry>>,
    Ghost(slices): Ghost<Seq<Seq<(Seq<char>, Seq<char>)>>>,
) -> (out: Vec<IndexEntry>)
    requires
        blocks@.len() == slices.len(),
        forall|b: int|
            0 <= b < blocks@.len() ==> index_represents((#[trigger] blocks@[b])@, slices[b]),
        concat_slices(slices).len() <= usize::MAX,
    ensures
        index_represents(out@, concat_slices(slices)),
{
    let ghost ps = concat_slices(slices);
    let nblocks = blocks.len();
    let mut pos: Vec<usize> = Vec::new();
    let mut z: usize = 0;
    while z < nblocks
        invariant
            z <= nblocks,
            pos@.len() == z,
            forall|b: int| 0 <= b < z ==> (#[trigger] pos@[b]) == 0,
        decreases nblocks - z,
    {
        pos.push(0);
        z = z + 1;
    }
    let mut out: Vec<IndexEntry> = Vec::new();
    proof {
        assert forall|d: Seq<char>, t: Seq<char>| #[trigger] count_pair(ps, d, t) > 0 implies (
        exists|x: int| 0 <= x < out@.len() && out@[x].term@ == t) || (exists|b: int, k: int|
            0 <= b < blocks@.len() && pos@[b] <= k < blocks@[b]@.len() && blocks@[b]@[k].term@
                == t) by {
            lemma_concat_slices_count(slices, d, t);
            let b = choose|b: int| 0 <= b < slices.len() && count_pair(#[trigger] slices[b], d, t) > 0;
            assert(index_represents(blocks@[b]@, slices[b]));
            let x = choose|x: int|
                0 <= x < blocks@[b]@.len() && (#[trigger] blocks@[b]@[x]).term@ == t;
            assert(pos@[b] <= x < blocks@[b]@.len() && blocks@[b]@[x].term@ == t);
        }
    }
    loop
        invariant
            nblocks == blocks@.len(),
            blocks@.len() == slices.len(),
            forall|b: int|
                0 <= b < blocks@.len() ==> index_represents((#[trigger] blocks@[b])@, slices[b]),
            ps == concat_slices(slices),
            ps.len() <= usize::MAX,
            pos_wf(pos@, blocks@),
            forall|x: int, y: int|
                0 <= x < y < out@.len() ==> lex_lt(
                    (#[trigger] out@[x]).term@,
                    (#[trigger] out@[y]).term@,
                ),
            forall|x: int| 0 <= x < out@.len() ==> entry_counts(#[trigger] out@[x], ps),
            frontier(out@, blocks@, pos@),
            consumed_emitted(out@, blocks@, pos@),
            coverage(out@, blocks@, pos@, ps),
        ensures
            forall|x: int, y: int|
                0 <= x < y < out@.len() ==> lex_lt(
                    (#[trigger] out@[x]).term@,
                    (#[trigger] out@[y]).term@,
                ),
            forall|x: int| 0 <= x < out@.len() ==> entry_counts(#[trigger] out@[x], ps),
            coverage(out@, blocks@, pos@, ps),
            forall|c: int| 0 <= c < blocks@.len() ==> (#[trigger] pos@[c]) == blocks@[c]@.len(),
        decreases remaining_sum(blocks@, pos@),
    {
        // find the smallest current term among the open streams
        let mut best: usize = nblocks;
        let mut b: usize = 0;
        while b < nblocks
            invariant
                b <= nblocks,
                nblocks == blocks@.len(),
                pos_wf(pos@, blocks@),
                best == nblocks || (best < nblocks && pos@[best as int] < blocks@[
                    best as int]@.len()),
                best == nblocks ==> forall|c: int|
                    0 <= c < b ==> (#[trigger] pos@[c]) == blocks@[c]@.len(),
                best < nblocks ==> forall|c: int|
                    0 <= c < b && (#[trigger] pos@[c]) < blocks@[c]@.len() ==> lex_le(
                        blocks@[best as int]@[pos@[best as int] as int].term@,
                        blocks@[c]@[pos@[c] as int].term@,
                    ),
            decreases nblocks - b,
        {
            if pos[b] < blocks[b].len() {
                if best == nblocks {
                    best = b;
                } else {
                    let ghost old_best = best as int;
                    match str_compare(
                        blocks[b][pos[b]].term.as_str(),
                        blocks[best][pos[best]].term.as_str(),
                    ) {
                        TermOrder::Less => {
                            proof {
                                let newt = blocks@[b as int]@[pos@[b as int] as int].term@;
                                let oldt = blocks@[old_best]@[pos@[old_best] as int].term@;
                                assert forall|c: int|
                                    0 <= c < b + 1 && (#[trigger] pos@[c]) < blocks@[c]@.len()
                                        implies lex_le(
                                    newt,
                                    blocks@[c]@[pos@[c] as int].term@,
                                ) by {
                                    if c < b {
                                        lemma_lex_le_transitive(
                                            newt,
                                            oldt,
                                            blocks@[c]@[pos@[c] as int].term@,
                                        );
                                    }
                                }
                            }
                            best = b;
                        },
                        TermOrder::Equal => {
                        },
                        TermOrder::Greater => {
                        },
                    }
                }
            }
            b = b + 1;
        }
        if best == nblocks {
            break ;
        }
        // gather and sum the postings of every stream at this term
        let term = blocks[best][pos[best]].term.clone();
        let ghost tv = term@;
        let ghost pos0 = pos@;
        let mut acc: Vec<PostingEntry> = Vec::new();
        let mut b2: usize = 0;
        proof {
            assert(slices.subrange(0, 0) =~= Seq::<Seq<(Seq<char>, Seq<char>)>>::empty());
        }
        while b2 < nblocks
            invariant
                b2 <= nblocks,
                nblocks == blocks@.len(),
                blocks@.len() == slices.len(),
                forall|c: int|
                    0 <= c < blocks@.len() ==> index_represents(
                        (#[trigger] blocks@[c])@,
                        slices[c],
                    ),
                ps == concat_slices(slices),
                ps.len() <= usize::MAX,
                pos_wf(pos0, blocks@),
                pos@.len() == nblocks,
                best < nblocks,
                pos0[best as int] < blocks@[best as int]@.len(),
                tv == blocks@[best as int]@[pos0[best as int] as int].term@,
                tv == term@,
                forall|c: int|
                    0 <= c < nblocks && (#[trigger] pos0[c]) < blocks@[c]@.len() ==> lex_le(
                        tv,
                        blocks@[c]@[pos0[c] as int].term@,
                    ),
                forall|c: int| b2 <= c < nblocks ==> (#[trigger] pos@[c]) == pos0[c],
                forall|c: int|
                    0 <= c < b2 ==> (#[trigger] pos@[c]) as int == if pos0[c] < blocks@[c]@.len()
                        && blocks@[c]@[pos0[c] as int].term@ == tv {
                        pos0[c] + 1int
                    } else {
                        pos0[c] as int
                    },
                forall|x: int, y: int|
                    0 <= x < y < out@.len() ==> lex_lt(
                        (#[trigger] out@[x]).term@,
                        (#[trigger] out@[y]).term@,
                    ),
                forall|x: int| 0 <= x < out@.len() ==> entry_counts(#[trigger] out@[x], ps),
                frontier(out@, blocks@, pos0),
                consumed_emitted(out@, blocks@, pos0),
                coverage(out@, blocks@, pos0, ps),
                postings_wf(acc@),
                forall|k: int|
                    0 <= k < acc@.len() ==> (#[trigger] acc@[k]).1 as nat == count_pair(
                        concat_slices(slices.subrange(0, b2 as int)),
                        acc@[k].0@,
                        tv,
                    ),
                forall|d: Seq<char>|
                    #[trigger] count_pair(concat_slices(slices.subrange(0, b2 as int)), d, tv) > 0
                        ==> exists|k: int| 0 <= k < acc@.len() && acc@[k].0@ == d,
                b2 > best ==> acc@.len() >= 1,
            decreases nblocks - b2,
        {
            let ghost cpre = concat_slices(slices.subrange(0, b2 as int));
            let mut contributed = false;
            if pos[b2] < blocks[b2].len() {
                match str_compare(blocks[b2][pos[b2]].term.as_str(), term.as_str()) {
                    TermOrder::Equal => {
                        proof {
                            assert(entry_counts(blocks@[b2 as int]@[pos0[b2 as int] as int], slices[b2 as int]));
                            assert forall|d: Seq<char>|
                                #[trigger] count_pair(cpre, d, tv) + count_pair(
                                    slices[b2 as int],
                                    d,
                                    tv,
                                ) <= usize::MAX by {
                                lemma_concat_slices_step(slices, b2 as int, d, tv);
                                lemma_concat_slices_prefix_le(slices, b2 as int + 1, d, tv);
                                lemma_count_pair_le_len(ps, d, tv);
                            }
                        }
                        let e = &blocks[b2][pos[b2]];
                        merge_postings_into(
                            &mut acc,
                            e,
                            Ghost(cpre),
                            Ghost(slices[b2 as int]),
                        );
                        let ghost pprev = pos@;
                        let old_pos = pos.remove(b2);
                        let ghost pmid = pos@;
                        pos.insert(b2, old_pos + 1);
                        contributed = true;
                        proof {
                            assert forall|c: int|
                                0 <= c < nblocks && c != b2 implies pos@[c] == pprev[c] by {
                                if c < b2 {
                                    assert(pmid[c] == pprev[c]);
                                    assert(pos@[c] == pmid[c]);
                                } else {
                                    assert(pmid[c - 1] == pprev[c]);
                                    assert(pos@[c] == pmid[c - 1]);
                                }
                            }
                            assert(pos@[b2 as int] as int == pprev[b2 as int] + 1);
                        }
                    },
                    _ => {
                        proof {
                            lemma_block_skips_term(
                                blocks@,
                                slices,
                                pos0,
                                out@,
                                b2 as int,
                                best as int,
                                tv,
                            );
                        }
                    },
                }
            } else {
                proof {
                    lemma_block_skips_term(
                        blocks@,
                        slices,
                        pos0,
                        out@,
                        b2 as int,
                        best as int,
                        tv,
                    );
                }
            }
            proof {
                let cnext = concat_slices(slices.subrange(0, b2 as int + 1));
                assert forall|d: Seq<char>| #[trigger] count_pair(cnext, d, tv) == count_pair(
                    cpre,
                    d,
                    tv,
                ) + count_pair(slices[b2 as int], d, tv) by {
                    lemma_concat_slices_step(slices, b2 as int, d, tv);
                }
                if !contributed {
                    assert forall|d: Seq<char>| #[trigger] count_pair(slices[b2 as int], d, tv)
                        == 0 by {}
                }
            }
            b2 = b2 + 1;
        }
        let ghost pos1 = pos@;
        let entry = IndexEntry { term, postings: acc };
        let ghost out0 = out@;
        out.push(entry);
        proof {
            assert(slices.subrange(0, nblocks as int) =~= slices);
            assert(out@.len() == out0.len() + 1);
            assert forall|x: int| 0 <= x < out0.len() implies out@[x] == out0[x] by {}
            assert(out@[out@.len() - 1].term@ == tv);
            assert(out@[out@.len() - 1].postings@ == entry.postings@);
            // the new entry is exact for the whole token sequence
            assert(entry_counts(out@[out@.len() - 1], ps));
            // old entries still exact; order: old terms are below tv
            assert forall|x: int| 0 <= x < out0.len() implies lex_lt(out0[x].term@, tv) by {
                assert(blocks@[best as int]@[pos0[best as int] as int].term@ == tv);
            }
            assert forall|x: int, y: int| 0 <= x < y < out@.len() implies lex_lt(
                (#[trigger] out@[x]).term@,
                (#[trigger] out@[y]).term@,
            ) by {
                if y == out@.len() - 1 {
                    assert(lex_lt(out0[x].term@, tv));
                }
            }
            // frontier, consumed terms, coverage for the advanced positions
            lemma_merge_round_invariants(blocks@, slices, pos0, pos1, out0, out@, best as int, tv);
            // termination: the best stream advanced
            assert(pos1.len() == nblocks);
            assert forall|c: int| 0 <= c < blocks@.len() implies (#[trigger] pos0[c]) <= pos1[c] by {}
            assert(pos0[best as int] < pos1[best as int]);
            lemma_remaining_sum_lt(blocks@, pos0, pos1, best as int);
            lemma_remaining_sum_nonneg(blocks@, pos1);
            assert(remaining_sum(blocks@, pos1) < remaining_sum(blocks@, pos0));
            assert(pos@ == pos1);
        }
    }
    proof {
        assert forall|d: Seq<char>, t: Seq<char>| count_pair(ps, d, t) > 0 implies exists|x: int|
            0 <= x < out@.len() && (#[trigger] out@[x]).term@ == t by {
            if exists|b: int, k: int|
                0 <= b < blocks@.len() && pos@[b] <= k < blocks@[b]@.len() && blocks@[b]@[k].term@
                    == t {
                let (b, k) = choose|b: int, k: int|
                    0 <= b < blocks@.len() && pos@[b] <= k < blocks@[b]@.len()
                        && (#[trigger] (blocks@[b]@[k])).term@ == t;
                assert(pos@[b] == blocks@[b]@.len());
            }
        }
    }
    out
}

/// A stream that is not positioned at the current minimum term contains no
/// occurrence of it at all: not behind (those terms were already emitted,
/// and everything emitted is below the minimum), not ahead (its entries
/// there are strictly above its current one).
proof fn lemma_block_skips_term(
    blocks: Seq<Vec<IndexEntry>>,
    slices: Seq<Seq<(Seq<char>, Seq<char>)>>,
    pos0: Seq<usize>,
    out: Seq<IndexEntry>,
    b2: int,
    best: int,
    tv: Seq<char>,
)
    requires
        blocks.len() == slices.len(),
        forall|c: int| 0 <= c < blocks.len() ==> index_represents((#[trigger] blocks[c])@, slices[c]),
        pos_wf(pos0, blocks),
        0 <= b2 < blocks.len(),
        0 <= best < blocks.len(),
        pos0[best] < blocks[best]@.len(),
        tv == blocks[best]@[pos0[best] as int].term@,
        forall|c: int|
            0 <= c < blocks.len() && (#[trigger] pos0[c]) < blocks[c]@.len() ==> lex_le(
                tv,
                blocks[c]@[pos0[c] as int].term@,
            ),
        frontier(out, blocks, pos0),
        consumed_emitted(out, blocks, pos0),
        pos0[b2] == blocks[b2]@.len() || blocks[b2]@[pos0[b2] as int].term@ != tv,
    ensures
        forall|d: Seq<char>| #[trigger] count_pair(slices[b2], d, tv) == 0,
{
    assert forall|k: int| 0 <= k < blocks[b2]@.len() implies (#[trigger] blocks[b2]@[k]).term@
        != tv by {
        if k < pos0[b2] {
            let x = choose|x: int|
                0 <= x < out.len() && out[x].term@ == blocks[b2]@[k].term@;
            assert(lex_lt(out[x].term@, blocks[best]@[pos0[best] as int].term@));
            if blocks[b2]@[k].term@ == tv {
                lemma_lex_irreflexive(tv);
            }
        } else {
            let ct = blocks[b2]@[pos0[b2] as int].term@;
            assert(lex_le(tv, ct));
            assert(ct != tv);
            assert(lex_lt(tv, ct));
            if k > pos0[b2] {
                assert(lex_lt(ct, blocks[b2]@[k].term@));
                lemma_lex_transitive(tv, ct, blocks[b2]@[k].term@);
            }
            lemma_lex_asymmetric(tv, blocks[b2]@[k].term@);
        }
    }
    assert forall|d: Seq<char>| #[trigger] count_pair(slices[b2], d, tv) == 0 by {
        lemma_no_term_no_count(blocks[b2]@, slices[b2], d, tv);
    }
}

/// After one merge round the bookkeeping invariants hold again: positions
/// moved only past entries carrying the emitted term, which now stands at
/// the end of the output.
proof fn lemma_merge_round_invariants(
    blocks: Seq<Vec<IndexEntry>>,
    slices: Seq<Seq<(Seq<char>, Seq<char>)>>,
    pos0: Seq<usize>,
    pos1: Seq<usize>,
    out0: Seq<IndexEntry>,
    out1: Seq<IndexEntry>,
    best: int,
    tv: Seq<char>,
)
    requires
        blocks.len() == slices.len(),
        forall|c: int| 0 <= c < blocks.len() ==> index_represents((#[trigger] blocks[c])@, slices[c]),
        pos_wf(pos0, blocks),
        pos1.len() == blocks.len(),
        forall|c: int|
            0 <= c < blocks.len() ==> (#[trigger] pos1[c]) as int == if pos0[c] < blocks[c]@.len()
                && blocks[c]@[pos0[c] as int].term@ == tv {
                pos0[c] + 1int
            } else {
                pos0[c] as int
            },
        0 <= best < blocks.len(),
        pos0[best] < blocks[best]@.len(),
        tv == blocks[best]@[pos0[best] as int].term@,
        forall|c: int|
            0 <= c < blocks.len() && (#[trigger] pos0[c]) < blocks[c]@.len() ==> lex_le(
                tv,
                blocks[c]@[pos0[c] as int].term@,
            ),
        frontier(out0, blocks, pos0),
        consumed_emitted(out0, blocks, pos0),
        coverage(out0, blocks, pos0, concat_slices(slices)),
        out1.len() == out0.len() + 1,
        forall|x: int| 0 <= x < out0.len() ==> (#[trigger] out1[x]) == out0[x],
        out1[out1.len() - 1].term@ == tv,
    ensures
        pos_wf(pos1, blocks),
        frontier(out1, blocks, pos1),
        consumed_emitted(out1, blocks, pos1),
        coverage(out1, blocks, pos1, concat_slices(slices)),
        forall|c: int| 0 <= c < blocks.len() ==> (#[trigger] pos0[c]) <= pos1[c],
        pos0[best] < pos1[best],
{
    assert(pos_wf(pos1, blocks));
    assert forall|b: int, k: int, x: int|
        #![trigger blocks[b]@[k], out1[x]]
        0 <= b < blocks.len() && pos1[b] <= k < blocks[b]@.len() && 0 <= x < out1.len() implies
        lex_lt(out1[x].term@, blocks[b]@[k].term@) by {
        if x < out0.len() {
            assert(pos0[b] <= k);
            assert(lex_lt(out0[x].term@, blocks[b]@[k].term@));
        } else {
            let at_term = pos0[b] < blocks[b]@.len() && blocks[b]@[pos0[b] as int].term@ == tv;
            if at_term {
                assert(k >= pos0[b] + 1);
                assert(lex_lt(blocks[b]@[pos0[b] as int].term@, blocks[b]@[k].term@));
            } else {
                assert(pos1[b] == pos0[b]);
                let ct = blocks[b]@[pos0[b] as int].term@;
                assert(lex_le(tv, ct));
                assert(ct != tv);
                assert(lex_lt(tv, ct));
                if k > pos0[b] {
                    assert(lex_lt(ct, blocks[b]@[k].term@));
                    lemma_lex_transitive(tv, ct, blocks[b]@[k].term@);
                }
            }
        }
    }
    assert forall|b: int, k: int|
        #![trigger blocks[b]@[k]]
        0 <= b < blocks.len() && 0 <= k < pos1[b] implies exists|x: int|
        0 <= x < out1.len() && out1[x].term@ == blocks[b]@[k].term@ by {
        if k < pos0[b] {
            let x = choose|x: int|
                0 <= x < out0.len() && out0[x].term@ == blocks[b]@[k].term@;
            assert(out1[x].term@ == blocks[b]@[k].term@);
        } else {
            assert(k == pos0[b]);
            assert(blocks[b]@[k].term@ == tv);
            assert(out1[out1.len() - 1].term@ == blocks[b]@[k].term@);
        }
    }
    assert forall|d: Seq<char>, t: Seq<char>|
        #[trigger] count_pair(concat_slices(slices), d, t) > 0 implies (exists|x: int|
        0 <= x < out1.len() && out1[x].term@ == t) || (exists|b: int, k: int|
        0 <= b < blocks.len() && pos1[b] <= k < blocks[b]@.len() && blocks[b]@[k].term@ == t) by {
        if exists|x: int| 0 <= x < out0.len() && out0[x].term@ == t {
            let x = choose|x: int| 0 <= x < out0.len() && out0[x].term@ == t;
            assert(out1[x].term@ == t);
        } else {
            let (b, k) = choose|b: int, k: int|
                0 <= b < blocks.len() && pos0[b] <= k < blocks[b]@.len() && blocks[b]@[k].term@
                    == t;
            if k >= pos1[b] {
                assert(pos1[b] <= k < blocks[b]@.len() && blocks[b]@[k].term@ == t);
            } else {
                assert(k == pos0[b]);
                assert(blocks[b]@[k].term@ == tv);
                assert(out1[out1.len() - 1].term@ == t);
            }
        }
    }
}

/// Memory-bounded build: consume the stream in blocks of at most
/// `max_tokens_per_block` tokens, build each block as an independently
/// sorted partial index, then merge all blocks into the final index.
pub fn create_index_spimi(tokens: &Vec<Token>, max_tokens_per_block: usize) -> (r: IndexBuild)
    requires
        max_tokens_per_block >= 1,
    ensures
        build_ok(r, pairs_of(tokens@)),
{
    let ghost ps = pairs_of(tokens@);
    let n = tokens.len();
    let mut blocks: Vec<Vec<IndexEntry>> = Vec::new();
    let ghost mut slices: Seq<Seq<(Seq<char>, Seq<char>)>> = Seq::empty();
    let mut start: usize = 0;
    proof {
        assert(concat_slices(slices) =~= Seq::<(Seq<char>, Seq<char>)>::empty());
        assert(pairs_of(tokens@.subrange(0, 0)) =~= Seq::<(Seq<char>, Seq<char>)>::empty());
    }
    while start < tokens.len()
        invariant
            start <= tokens@.len(),
            n == tokens@.len(),
            ps == pairs_of(tokens@),
            max_tokens_per_block >= 1,
            blocks@.len() == slices.len(),
            forall|b: int|
                0 <= b < blocks@.len() ==> index_represents((#[trigger] blocks@[b])@, slices[b]),
            concat_slices(slices) == pairs_of(tokens@.subrange(0, start as int)),
        decreases tokens@.len() - start,
    {
        let (block, next) = spimi_invert(tokens, start, max_tokens_per_block);
        let ghost slice = pairs_of(tokens@.subrange(start as int, next as int));
        blocks.push(block);
        proof {
            let old_slices = slices;
            slices = slices.push(slice);
            assert(slices.drop_last() =~= old_slices);
            assert(slices.last() == slice);
            assert(blocks@.len() == slices.len());
            assert forall|b: int|
                0 <= b < blocks@.len() implies index_represents(
                (#[trigger] blocks@[b])@,
                slices[b],
            ) by {
                if b < blocks@.len() - 1 {
                    assert(blocks@[b] == blocks@.subrange(0, blocks@.len() - 1)[b]);
                    assert(slices[b] == old_slices[b]);
                }
            }
            assert(concat_slices(slices) == pairs_of(tokens@.subrange(0, next as int))) by {
                assert(concat_slices(slices) == concat_slices(old_slices) + slice);
                assert(pairs_of(tokens@.subrange(0, next as int)) =~= pairs_of(
                    tokens@.subrange(0, start as int),
                ) + pairs_of(tokens@.subrange(start as int, next as int)));
            }
        }
        start = next;
    }
    proof {
        assert(tokens@.subrange(0, tokens@.len() as int) =~= tokens@);
        assert(concat_slices(slices) == ps);
        assert(ps.len() == tokens@.len());
    }
    let entries = merge_blocks(&blocks, Ghost(slices));
    proof {
        assert forall|d: Seq<char>| #[trigger] sum_tf(entries@, d) <= usize::MAX by {
            lemma_sum_tf_bound(entries@, ps, d);
            lemma_count_doc_le_len(ps, d);
        }
        assert forall|x: int|
            0 <= x < entries@.len() implies postings_wf((#[trigger] entries@[x]).postings@) by {
            assert(entry_counts(entries@[x], ps));
        }
    }
    let document_count = count_documents(tokens);
    let (terms_counter, length_counter) = collect_stats(&entries);
    IndexBuild { document_count, entries, terms_counter, length_counter }
}

proof fn lemma_sorted_same_membership(u: Seq<Seq<char>>, v: Seq<Seq<char>>)
    requires
        forall|x: int, y: int| 0 <= x < y < u.len() ==> lex_lt(#[trigger] u[x], #[trigger] u[y]),
        forall|x: int, y: int| 0 <= x < y < v.len() ==> lex_lt(#[trigger] v[x], #[trigger] v[y]),
        forall|t: Seq<char>| u.contains(t) <==> v.contains(t),
    ensures
        u == v,
    decreases u.len(),
{
    if u.len() == 0 {
        if v.len() > 0 {
            assert(v.contains(v[0]));
        }
        assert(u =~= v);
    } else {
        assert(u.contains(u[0]));
        assert(v.contains(u[0]));
        let j = choose|j: int| 0 <= j < v.len() && v[j] == u[0];
        assert(v.contains(v[0]));
        assert(u.contains(v[0]));
        let i = choose|i: int| 0 <= i < u.len() && u[i] == v[0];
        assert(u[0] == v[0]) by {
            if j > 0 {
                assert(lex_lt(v[0], v[j]));
                if i > 0 {
                    assert(lex_lt(u[0], u[i]));
                    lemma_lex_transitive(u[0], v[0], u[0]);
                    lemma_lex_irreflexive(u[0]);
                }
            }
        }
        let u1 = u.drop_first();
        let v1 = v.drop_first();
        assert forall|x: int, y: int| 0 <= x < y < u1.len() implies lex_lt(
            #[trigger] u1[x],
            #[trigger] u1[y],
        ) by {
            assert(u1[x] == u[x + 1]);
            assert(u1[y] == u[y + 1]);
        }
        assert forall|x: int, y: int| 0 <= x < y < v1.len() implies lex_lt(
            #[trigger] v1[x],
            #[trigger] v1[y],
        ) by {
            assert(v1[x] == v[x + 1]);
            assert(v1[y] == v[y + 1]);
        }
        assert forall|t: Seq<char>| u1.contains(t) <==> v1.contains(t) by {
            if u1.contains(t) {
                let x = choose|x: int| 0 <= x < u1.len() && u1[x] == t;
                assert(u[x + 1] == t);
                assert(u.contains(t));
                assert(t != u[0]) by {
                    assert(lex_lt(u[0], u[x + 1]));
                    lemma_lex_irreflexive(t);
                }
                assert(v.contains(t));
                let y = choose|y: int| 0 <= y < v.len() && v[y] == t;
                assert(y != 0);
                assert(v1[y - 1] == t);
                assert(v1.contains(t));
            }
            if v1.contains(t) {
                let x = choose|x: int| 0 <= x < v1.len() && v1[x] == t;
                assert(v[x + 1] == t);
                assert(v.contains(t));
                assert(t != v[0]) by {
                    assert(lex_lt(v[0], v[x + 1]));
                    lemma_lex_irreflexive(t);
                }
                assert(u.contains(t));
                let y = choose|y: int| 0 <= y < u.len() && u[y] == t;
                assert(y != 0);
                assert(u1[y - 1] == t);
                assert(u1.contains(t));
            }
        }
        lemma_sorted_same_membership(u1, v1);
        assert forall|x: int| 0 <= x < u.len() implies u[x] == v[x] by {
            if x > 0 {
                assert(u[x] == u1[x - 1]);
                assert(v[x] == v1[x - 1]);
            }
        }
        assert(u =~= v);
    }
}

/// The document ids of a postings list, in order.
pub open spec fn postings_docs(p: Seq<PostingEntry>) -> Seq<Seq<char>> {
    p.map_values(|q: PostingEntry| q.0@)
}

/// Posting `k` of entry `a` appears in entry `b` too: same document id,
/// same frequency, at some position.
pub open spec fn posting_matched(a: IndexEntry, b: IndexEntry, k: int) -> bool {
    exists|k2: int|
        0 <= k2 < b.postings@.len() && (#[trigger] (b.postings@[k2])).0@ == a.postings@[k].0@
            && b.postings@[k2].1 == a.postings@[k].1
}

/// Equivalence of the two indexing strategies. Any two results that satisfy
/// the indexing contract for the same token sequence - as the single-pass
/// and the blocked build both do, for every block size - have the same term
/// column in the same order, and per term record the same postings up to
/// their order: the same documents, with the same frequency for each, and
/// equally many of them.
pub proof fn lemma_indexer_equivalence(
    a: Seq<IndexEntry>,
    b: Seq<IndexEntry>,
    ps: Seq<(Seq<char>, Seq<char>)>,
)
    requires
        index_represents(a, ps),
        index_represents(b, ps),
    ensures
        a.len() == b.len(),
        forall|i: int| 0 <= i < a.len() ==> (#[trigger] a[i]).term@ == b[i].term@,
        forall|i: int, k: int|
            0 <= i < a.len() && 0 <= k < a[i].postings@.len() ==> #[trigger] posting_matched(
                a[i],
                b[i],
                k,
            ),
        forall|i: int| 0 <= i < a.len() ==> (#[trigger] a[i]).postings@.len()
            == b[i].postings@.len(),
{
    assert forall|idx: Seq<IndexEntry>, t: Seq<char>|
        #[trigger] terms_of(idx).contains(t) implies exists|i: int|
        0 <= i < idx.len() && (#[trigger] idx[i]).term@ == t by {
        let i = choose|i: int| 0 <= i < terms_of(idx).len() && terms_of(idx)[i] == t;
        assert(idx[i].term@ == t);
    }
    // the two term columns carry the same members
    assert forall|t: Seq<char>| terms_of(a).contains(t) <==> terms_of(b).contains(t) by {
        if terms_of(a).contains(t) {
            let i = choose|i: int| 0 <= i < a.len() && (#[trigger] a[i]).term@ == t;
            lemma_term_present(a, b, ps, i);
            let x = choose|x: int| 0 <= x < b.len() && (#[trigger] b[x]).term@ == t;
            assert(terms_of(b)[x] == t);
        }
        if terms_of(b).contains(t) {
            let i = choose|i: int| 0 <= i < b.len() && (#[trigger] b[i]).term@ == t;
            lemma_term_present(b, a, ps, i);
            let x = choose|x: int| 0 <= x < a.len() && (#[trigger] a[x]).term@ == t;
            assert(terms_of(a)[x] == t);
        }
    }
    assert forall|x: int, y: int| 0 <= x < y < terms_of(a).len() implies lex_lt(
        #[trigger] terms_of(a)[x],
        #[trigger] terms_of(a)[y],
    ) by {
        assert(terms_of(a)[x] == a[x].term@);
        assert(terms_of(a)[y] == a[y].term@);
    }
    assert forall|x: int, y: int| 0 <= x < y < terms_of(b).len() implies lex_lt(
        #[trigger] terms_of(b)[x],
        #[trigger] terms_of(b)[y],
    ) by {
        assert(terms_of(b)[x] == b[x].term@);
        assert(terms_of(b)[y] == b[y].term@);
    }
    lemma_sorted_same_membership(terms_of(a), terms_of(b));
    assert(a.len() == b.len());
    assert forall|i: int| 0 <= i < a.len() implies (#[trigger] a[i]).term@ == b[i].term@ by {
        assert(terms_of(a)[i] == terms_of(b)[i]);
    }
    // per term, the same documents with the same frequencies
    assert forall|i: int, k: int|
        0 <= i < a.len() && 0 <= k < a[i].postings@.len() implies #[trigger] posting_matched(
        a[i],
        b[i],
        k,
    ) by {
        lemma_posting_matches(a, b, ps, i, k);
    }
    assert forall|i: int| 0 <= i < a.len() implies (#[trigger] a[i]).postings@.len()
        == b[i].postings@.len() by {
        lemma_postings_len_eq(a[i], b[i], ps);
    }
}

/// A term of one faithful index occurs in any other faithful index of the
/// same tokens.
proof fn lemma_term_present(
    a: Seq<IndexEntry>,
    b: Seq<IndexEntry>,
    ps: Seq<(Seq<char>, Seq<char>)>,
    i: int,
)
    requires
        index_represents(a, ps),
        index_represents(b, ps),
        0 <= i < a.len(),
    ensures
        exists|x: int| 0 <= x < b.len() && (#[trigger] b[x]).term@ == a[i].term@,
{
    assert(entry_counts(a[i], ps));
    let d0 = a[i].postings@[0].0@;
    assert(a[i].postings@[0].1 >= 1);
    assert(a[i].postings@[0].1 as nat == count_pair(ps, d0, a[i].term@));
    assert(count_pair(ps, d0, a[i].term@) > 0);
}

proof fn lemma_posting_matches(
    a: Seq<IndexEntry>,
    b: Seq<IndexEntry>,
    ps: Seq<(Seq<char>, Seq<char>)>,
    i: int,
    k: int,
)
    requires
        index_represents(a, ps),
        index_represents(b, ps),
        0 <= i < a.len(),
        i < b.len(),
        a[i].term@ == b[i].term@,
        0 <= k < a[i].postings@.len(),
    ensures
        posting_matched(a[i], b[i], k),
{
    assert(entry_counts(a[i], ps));
    assert(entry_counts(b[i], ps));
    let d = a[i].postings@[k].0@;
    assert(a[i].postings@[k].1 as nat == count_pair(ps, d, a[i].term@));
    assert(a[i].postings@[k].1 >= 1);
    assert(count_pair(ps, d, b[i].term@) > 0);
    let k2 = choose|k2: int| 0 <= k2 < b[i].postings@.len() && (#[trigger] b[i].postings@[k2]).0@
        == d;
    assert(b[i].postings@[k2].1 as nat == count_pair(ps, d, b[i].term@));
    assert((b[i].postings@[k2]).0@ == a[i].postings@[k].0@ && b[i].postings@[k2].1
        == a[i].postings@[k].1);
}

proof fn lemma_postings_len_eq(ea: IndexEntry, eb: IndexEntry, ps: Seq<(Seq<char>, Seq<char>)>)
    requires
        entry_counts(ea, ps),
        entry_counts(eb, ps),
        ea.term@ == eb.term@,
    ensures
        ea.postings@.len() == eb.postings@.len(),
{
    let da = postings_docs(ea.postings@);
    let db = postings_docs(eb.postings@);
    assert(da.no_duplicates()) by {
        assert forall|x: int, y: int| 0 <= x < y < da.len() implies da[x] != da[y] by {
            assert(da[x] == ea.postings@[x].0@);
            assert(da[y] == ea.postings@[y].0@);
        }
    }
    assert(db.no_duplicates()) by {
        assert forall|x: int, y: int| 0 <= x < y < db.len() implies db[x] != db[y] by {
            assert(db[x] == eb.postings@[x].0@);
            assert(db[y] == eb.postings@[y].0@);
        }
    }
    da.unique_seq_to_set();
    db.unique_seq_to_set();
    assert(da.to_set() =~= db.to_set()) by {
        assert forall|d: Seq<char>| da.to_set().contains(d) implies db.to_set().contains(d) by {
            let x = choose|x: int| 0 <= x < da.len() && da[x] == d;
            assert(ea.postings@[x].0@ == d);
            assert(ea.postings@[x].1 as nat == count_pair(ps, d, ea.term@));
            assert(ea.postings@[x].1 >= 1);
            assert(count_pair(ps, d, eb.term@) > 0);
            let y = choose|y: int|
                0 <= y < eb.postings@.len() && (#[trigger] eb.postings@[y]).0@ == d;
            assert(db[y] == d);
        }
        assert forall|d: Seq<char>| db.to_set().contains(d) implies da.to_set().contains(d) by {
            let x = choose|x: int| 0 <= x < db.len() && db[x] == d;
            assert(eb.postings@[x].0@ == d);
            assert(eb.postings@[x].1 as nat == count_pair(ps, d, eb.term@));
            assert(eb.postings@[x].1 >= 1);
            assert(count_pair(ps, d, ea.term@) > 0);
            let y = choose|y: int|
                0 <= y < ea.postings@.len() && (#[trigger] ea.postings@[y]).0@ == d;
            assert(da[y] == d);
        }
    }
}

proof fn lemma_count_refs_eq(a: Seq<IndexEntry>, b: Seq<IndexEntry>, d: Seq<char>)
    requires
        a.len() == b.len(),
        forall|i: int|
            0 <= i < a.len() ==> (postings_has((#[trigger] a[i]).postings@, d) <==> postings_has(
                b[i].postings@,
                d,
            )),
    ensures
        count_refs(a, d) == count_refs(b, d),
    decreases a.len(),
{
    if a.len() > 0 {
        let fa = a.drop_last();
        let fb = b.drop_last();
        assert forall|i: int|
            0 <= i < fa.len() implies (postings_has((#[trigger] fa[i]).postings@, d)
            <==> postings_has(fb[i].postings@, d)) by {
            assert(fa[i] == a[i]);
            assert(fb[i] == b[i]);
        }
        lemma_count_refs_eq(fa, fb, d);
        assert(a.last() == a[a.len() - 1]);
        assert(b.last() == b[a.len() - 1]);
    }
}

/// Strategy independence, in full: two builds of the same token sequence -
/// as the single-pass build and the blocked build are, for every block size
/// - agree on the document count, on the term column, on each term's
/// postings up to order, and on both per-document counters.
pub proof fn lemma_strategy_equivalence(
    simple: IndexBuild,
    blocked: IndexBuild,
    ps: Seq<(Seq<char>, Seq<char>)>,
)
    requires
        build_ok(simple, ps),
        build_ok(blocked, ps),
    ensures
        simple.document_count == blocked.document_count,
        simple.entries@.len() == blocked.entries@.len(),
        forall|i: int|
            0 <= i < simple.entries@.len() ==> (#[trigger] simple.entries@[i]).term@
                == blocked.entries@[i].term@,
        forall|i: int, k: int|
            0 <= i < simple.entries@.len() && 0 <= k < simple.entries@[i].postings@.len()
                ==> #[trigger] posting_matched(simple.entries@[i], blocked.entries@[i], k),
        simple.terms_counter@ == blocked.terms_counter@,
        simple.length_counter@ == blocked.length_counter@,
{
    let a = simple.entries@;
    let b = blocked.entries@;
    lemma_indexer_equivalence(a, b, ps);
    lemma_indexer_equivalence(b, a, ps);
    assert forall|d: Seq<char>| #[trigger] count_refs(a, d) == count_refs(b, d) by {
        assert forall|i: int|
            0 <= i < a.len() implies (postings_has((#[trigger] a[i]).postings@, d)
            <==> postings_has(b[i].postings@, d)) by {
            if postings_has(a[i].postings@, d) {
                let k = choose|k: int|
                    0 <= k < a[i].postings@.len() && (#[trigger] a[i].postings@[k]).0@ == d;
                assert(posting_matched(a[i], b[i], k));
                let k2 = choose|k2: int|
                    0 <= k2 < b[i].postings@.len() && (#[trigger] (b[i].postings@[k2])).0@
                        == a[i].postings@[k].0@ && b[i].postings@[k2].1 == a[i].postings@[k].1;
                assert(b[i].postings@[k2].0@ == d);
            }
            if postings_has(b[i].postings@, d) {
                let k = choose|k: int|
                    0 <= k < b[i].postings@.len() && (#[trigger] b[i].postings@[k]).0@ == d;
                assert(posting_matched(b[i], a[i], k));
                let k2 = choose|k2: int|
                    0 <= k2 < a[i].postings@.len() && (#[trigger] (a[i].postings@[k2])).0@
                        == b[i].postings@[k].0@ && a[i].postings@[k2].1 == b[i].postings@[k].1;
                assert(a[i].postings@[k2].0@ == d);
            }
        }
        lemma_count_refs_eq(a, b, d);
    }
    assert forall|d: Seq<char>| #[trigger] sum_tf(a, d) == sum_tf(b, d) by {
        lemma_sum_tf_conserves(a, ps, d);
        lemma_sum_tf_conserves(b, ps, d);
    }
    assert(simple.terms_counter@ =~= blocked.terms_counter@) by {
        assert forall|d: Seq<char>|
            simple.terms_counter@.contains_key(d) == #[trigger] blocked.terms_counter@.contains_key(
                d,
            ) by {
            assert(count_refs(a, d) == count_refs(b, d));
        }
        assert forall|d: Seq<char>|
            #[trigger] simple.terms_counter@.contains_key(d) implies simple.terms_counter@[d]
            == blocked.terms_counter@[d] by {
            assert(count_refs(a, d) == count_refs(b, d));
            assert(count_refs(a, d) > 0);
            assert(blocked.terms_counter@.contains_key(d));
            assert(simple.terms_counter@[d] == count_refs(a, d));
            assert(blocked.terms_counter@[d] == count_refs(b, d));
        }
    }
    assert(simple.length_counter@ =~= blocked.length_counter@) by {
        assert forall|d: Seq<char>|
            simple.length_counter@.contains_key(d)
                == #[trigger] blocked.length_counter@.contains_key(d) by {
            assert(count_refs(a, d) == count_refs(b, d));
        }
        assert forall|d: Seq<char>|
            #[trigger] simple.length_counter@.contains_key(d) implies simple.length_counter@[d]
            == blocked.length_counter@[d] by {
            assert(sum_tf(a, d) == sum_tf(b, d));
            assert(count_refs(a, d) == count_refs(b, d));
            assert(count_refs(a, d) > 0);
            assert(blocked.length_counter@.contains_key(d));
            assert(simple.length_counter@[d] == sum_tf(a, d));
            assert(blocked.length_counter@[d] == sum_tf(b, d));
        }
    }
}

} // verus!
