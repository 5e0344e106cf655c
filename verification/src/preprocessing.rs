use vstd::prelude::*;

use crate::counting::views_of;
use crate::markup::{strip_entities, strip_entities_from, strip_spans, strip_spans_from};

verus! {

/// Relies on str::chars: the characters of the string, in order.
#[verifier::external_body]
fn str_to_chars(s: &str) -> (r: Vec<char>)
    ensures
        r@ == s@,
{
    s.chars().collect()
}

/// Relies on String's FromIterator over characters: the string with
/// exactly these characters.
#[verifier::external_body]
fn chars_to_string(v: &Vec<char>) -> (r: String)
    ensures
        r@ == v@,
{
    v.iter().collect()
}

/// A white-space character as the word splitter sees one.
pub open spec fn is_space(c: char) -> bool {
    c == '\t' || c == '\n' || c == '\u{B}' || c == '\u{C}' || c == '\r' || c == ' ' || c
        == '\u{85}' || c == '\u{A0}' || c == '\u{1680}' || ('\u{2000}' <= c && c <= '\u{200A}')
        || c == '\u{2028}' || c == '\u{2029}' || c == '\u{202F}' || c == '\u{205F}' || c
        == '\u{3000}'
}

/// A punctuation character that separates words.
pub open spec fn is_split_punct(c: char) -> bool {
    c == '.' || c == ':' || c == '?' || c == '(' || c == ')' || c == '[' || c == ']' || c == '{'
        || c == '}' || c == '<' || c == '>' || c == '\'' || c == '!' || c == '"' || c == '-' || c
        == ',' || c == ';' || c == '$' || c == '*' || c == '%' || c == '#'
}

pub open spec fn is_split_char(c: char) -> bool {
    is_space(c) || is_split_punct(c)
}

fn is_split_char_exec(c: char) -> (r: bool)
    ensures
        r == is_split_char(c),
{
    c == '\t' || c == '\n' || c == '\u{B}' || c == '\u{C}' || c == '\r' || c == ' ' || c
        == '\u{85}' || c == '\u{A0}' || c == '\u{1680}' || ('\u{2000}' <= c && c <= '\u{200A}')
        || c == '\u{2028}' || c == '\u{2029}' || c == '\u{202F}' || c == '\u{205F}' || c
        == '\u{3000}' || c == '.' || c == ':' || c == '?' || c == '(' || c == ')' || c == '[' || c
        == ']' || c == '{' || c == '}' || c == '<' || c == '>' || c == '\'' || c == '!' || c == '"'
        || c == '-' || c == ',' || c == ';' || c == '$' || c == '*' || c == '%' || c == '#'
}

/// How many bytes a character occupies in UTF-8: the length filter counts
/// bytes, as `String::len` does.
pub open spec fn utf8_len_char(c: char) -> nat {
    if (c as u32) < 0x80 {
        1
    } else if (c as u32) < 0x800 {
        2
    } else if (c as u32) < 0x10000 {
        3
    } else {
        4
    }
}

pub open spec fn utf8_len(s: Seq<char>) -> nat
    decreases s.len(),
{
    if s.len() == 0 {
        0
    } else {
        utf8_len(s.drop_last()) + utf8_len_char(s.last())
    }
}

proof fn lemma_utf8_len_push(s: Seq<char>, c: char)
    ensures
        utf8_len(s.push(c)) == utf8_len(s) + utf8_len_char(c),
{
    assert(s.push(c).drop_last() =~= s);
    assert(s.push(c).last() == c);
}

fn utf8_len_char_exec(c: char) -> (r: u8)
    ensures
        r as nat == utf8_len_char(c),
{
    if (c as u32) < 0x80 {
        1
    } else if (c as u32) < 0x800 {
        2
    } else if (c as u32) < 0x10000 {
        3
    } else {
        4
    }
}

pub open spec fn min_len_of(min_length: Option<usize>) -> nat {
    match min_length {
        Some(m) => m as nat,
        None => 0,
    }
}

/// The words of `s`: maximal runs between split characters, keeping only
/// runs longer than `min` bytes; `cur` is the run read so far.
pub open spec fn split_acc(s: Seq<char>, cur: Seq<char>, min: nat) -> Seq<Seq<char>>
    decreases s.len(),
{
    if s.len() == 0 {
        if utf8_len(cur) > min {
            seq![cur]
        } else {
            Seq::empty()
        }
    } else if is_split_char(s[0]) {
        (if utf8_len(cur) > min {
            seq![cur]
        } else {
            Seq::empty()
        }) + split_acc(s.drop_first(), Seq::empty(), min)
    } else {
        split_acc(s.drop_first(), cur.push(s[0]), min)
    }
}

/// What splitting the text yields after the configured stripping passes:
/// HTML tags, then HTML entities, then square-bracket tags, then the word
/// split with its minimum byte length.
pub open spec fn split_words_spec(
    s: Seq<char>,
    strip_html_tags: bool,
    strip_html_entities: bool,
    strip_square_bracket_tags: bool,
    min_length: Option<usize>,
) -> Seq<Seq<char>> {
    let s1 = if strip_html_tags {
        strip_spans_from(s, 0, '<', '>')
    } else {
        s
    };
    let s2 = if strip_html_entities {
        strip_entities_from(s1, 0)
    } else {
        s1
    };
    let s3 = if strip_square_bracket_tags {
        strip_spans_from(s2, 0, '[', ']')
    } else {
        s2
    };
    split_acc(s3, Seq::empty(), min_len_of(min_length))
}

/// Splits the text into words: optionally strips HTML tags, HTML entities
/// and square-bracket tags, then cuts at white space and punctuation and
/// keeps the pieces longer than `min_length` bytes.
pub fn split_words(
    text: &str,
    strip_html_tags: bool,
    strip_html_entities: bool,
    strip_square_bracket_tags: bool,
    min_length: Option<usize>,
) -> (r: Vec<String>)
    ensures
        views_of(r@) == split_words_spec(
            text@,
            strip_html_tags,
            strip_html_entities,
            strip_square_bracket_tags,
            min_length,
        ),
{
    let mut cs = str_to_chars(text);
    if strip_html_tags {
        cs = strip_spans(&cs, '<', '>');
    }
    if strip_html_entities {
        cs = strip_entities(&cs);
    }
    if strip_square_bracket_tags {
        cs = strip_spans(&cs, '[', ']');
    }
    let min: usize = match min_length {
        Some(m) => m,
        None => 0,
    };
    let ghost goal = split_acc(cs@, Seq::empty(), min as nat);
    let mut out: Vec<String> = Vec::new();
    let mut cur: Vec<char> = Vec::new();
    let mut cur_bytes: u128 = 0;
    let mut i: usize = 0;
    proof {
        assert(cs@.skip(0) =~= cs@);
        assert(views_of(out@) =~= Seq::<Seq<char>>::empty());
        assert(Seq::<Seq<char>>::empty() + split_acc(cs@, Seq::empty(), min as nat) =~= goal);
    }
    while i < cs.len()
        invariant
            i <= cs@.len(),
            cur@.len() <= i,
            cur_bytes == utf8_len(cur@),
            goal == views_of(out@) + split_acc(cs@.skip(i as int), cur@, min as nat),
        decreases cs@.len() - i,
    {
        let ghost rest = cs@.skip(i as int);
        proof {
            assert(rest[0] == cs@[i as int]);
            assert(rest.drop_first() =~= cs@.skip(i + 1));
        }
        let c = cs[i];
        if is_split_char_exec(c) {
            let ghost out0 = out@;
            if cur_bytes > min as u128 {
                let word = chars_to_string(&cur);
                out.push(word);
                proof {
                    assert(views_of(out@) =~= views_of(out0).push(cur@));
                    assert(views_of(out0) + (seq![cur@] + split_acc(
                        cs@.skip(i + 1),
                        Seq::empty(),
                        min as nat,
                    )) =~= views_of(out@) + split_acc(cs@.skip(i + 1), Seq::empty(), min as nat));
                }
            } else {
                proof {
                    assert(views_of(out0) + (Seq::<Seq<char>>::empty() + split_acc(
                        cs@.skip(i + 1),
                        Seq::empty(),
                        min as nat,
                    )) =~= views_of(out0) + split_acc(cs@.skip(i + 1), Seq::empty(), min as nat));
                }
            }
            cur = Vec::new();
            cur_bytes = 0;
        } else {
            proof {
                crate::preprocessing::lemma_utf8_len_bound(cur@);
                lemma_utf8_len_push(cur@, c);
            }
            let add = utf8_len_char_exec(c);
            cur_bytes = cur_bytes + add as u128;
            cur.push(c);
        }
        i = i + 1;
    }
    proof {
        assert(cs@.skip(cs@.len() as int) =~= Seq::<char>::empty());
    }
    if cur_bytes > min as u128 {
        let word = chars_to_string(&cur);
        let ghost out0 = out@;
        out.push(word);
        proof {
            assert(views_of(out@) =~= views_of(out0).push(cur@));
            assert(split_acc(Seq::<char>::empty(), cur@, min as nat) == seq![cur@]);
            assert(views_of(out0) + seq![cur@] =~= views_of(out@));
        }
    } else {
        proof {
            assert(split_acc(Seq::<char>::empty(), cur@, min as nat) =~= Seq::<Seq<char>>::empty());
            assert(views_of(out@) + Seq::<Seq<char>>::empty() =~= views_of(out@));
        }
    }
    out
}

/// The byte length of a character sequence is at most four per character.
pub proof fn lemma_utf8_len_bound(s: Seq<char>)
    ensures
        utf8_len(s) <= 4 * s.len(),
    decreases s.len(),
{
    if s.len() > 0 {
        lemma_utf8_len_bound(s.drop_last());
    }
}


/// Whether `w` is one of the common English stop words that the stop-word
/// removal step drops.
pub open spec fn is_stop_word(w: Seq<char>) -> bool {
    is_stop_word_1(w) || is_stop_word_2(w) || is_stop_word_3(w) || is_stop_word_4(w)
}

pub open spec fn is_stop_word_1(w: Seq<char>) -> bool {
    w == "a"@ || w == "able"@ || w == "about"@ || w == "across"@ || w == "after"@ || w == "all"@ || w == "almost"@ || w == "also"@ || w == "am"@ || w == "among"@ || w == "an"@ || w == "and"@ || w == "any"@ || w == "are"@ || w == "as"@ || w == "at"@ || w == "be"@ || w == "because"@ || w == "been"@ || w == "but"@ || w == "by"@ || w == "can"@ || w == "cannot"@ || w == "could"@ || w == "dear"@ || w == "did"@ || w == "do"@ || w == "does"@ || w == "either"@ || w == "else"@
}

pub open spec fn is_stop_word_2(w: Seq<char>) -> bool {
    w == "ever"@ || w == "every"@ || w == "for"@ || w == "from"@ || w == "get"@ || w == "got"@ || w == "had"@ || w == "has"@ || w == "have"@ || w == "he"@ || w == "her"@ || w == "hers"@ || w == "him"@ || w == "his"@ || w == "how"@ || w == "however"@ || w == "i"@ || w == "if"@ || w == "in"@ || w == "into"@ || w == "is"@ || w == "it"@ || w == "its"@ || w == "just"@ || w == "least"@ || w == "let"@ || w == "like"@ || w == "likely"@ || w == "may"@ || w == "me"@
}

pub open spec fn is_stop_word_3(w: Seq<char>) -> bool {
    w == "might"@ || w == "most"@ || w == "must"@ || w == "my"@ || w == "neither"@ || w == "no"@ || w == "nor"@ || w == "not"@ || w == "of"@ || w == "off"@ || w == "often"@ || w == "on"@ || w == "only"@ || w == "or"@ || w == "other"@ || w == "our"@ || w == "own"@ || w == "rather"@ || w == "said"@ || w == "say"@ || w == "says"@ || w == "she"@ || w == "should"@ || w == "since"@ || w == "so"@ || w == "some"@ || w == "than"@ || w == "that"@ || w == "the"@ || w == "their"@
}

pub open spec fn is_stop_word_4(w: Seq<char>) -> bool {
    w == "them"@ || w == "then"@ || w == "there"@ || w == "these"@ || w == "they"@ || w == "this"@ || w == "tis"@ || w == "to"@ || w == "too"@ || w == "twas"@ || w == "us"@ || w == "wants"@ || w == "was"@ || w == "we"@ || w == "were"@ || w == "what"@ || w == "when"@ || w == "where"@ || w == "which"@ || w == "while"@ || w == "who"@ || w == "whom"@ || w == "why"@ || w == "will"@ || w == "with"@ || w == "would"@ || w == "yet"@ || w == "you"@ || w == "your"@
}

/// Whether the string equals the literal, by characters.
fn str_is(w: &str, lit: &str) -> (r: bool)
    ensures
        r == (w@ == lit@),
{
    matches!(crate::order::str_compare(w, lit), crate::order::TermOrder::Equal)
}

fn is_stop_word_1_exec(w: &str) -> (r: bool)
    ensures
        r == is_stop_word_1(w@),
{
    str_is(w, "a") || str_is(w, "able") || str_is(w, "about") || str_is(w, "across") || str_is(w, "after") || str_is(w, "all") || str_is(w, "almost") || str_is(w, "also") || str_is(w, "am") || str_is(w, "among") || str_is(w, "an") || str_is(w, "and") || str_is(w, "any") || str_is(w, "are") || str_is(w, "as") || str_is(w, "at") || str_is(w, "be") || str_is(w, "because") || str_is(w, "been") || str_is(w, "but") || str_is(w, "by") || str_is(w, "can") || str_is(w, "cannot") || str_is(w, "could") || str_is(w, "dear") || str_is(w, "did") || str_is(w, "do") || str_is(w, "does") || str_is(w, "either") || str_is(w, "else")
}

fn is_stop_word_2_exec(w: &str) -> (r: bool)
    ensures
        r == is_stop_word_2(w@),
{
    str_is(w, "ever") || str_is(w, "every") || str_is(w, "for") || str_is(w, "from") || str_is(w, "get") || str_is(w, "got") || str_is(w, "had") || str_is(w, "has") || str_is(w, "have") || str_is(w, "he") || str_is(w, "her") || str_is(w, "hers") || str_is(w, "him") || str_is(w, "his") || str_is(w, "how") || str_is(w, "however") || str_is(w, "i") || str_is(w, "if") || str_is(w, "in") || str_is(w, "into") || str_is(w, "is") || str_is(w, "it") || str_is(w, "its") || str_is(w, "just") || str_is(w, "least") || str_is(w, "let") || str_is(w, "like") || str_is(w, "likely") || str_is(w, "may") || str_is(w, "me")
}

fn is_stop_word_3_exec(w: &str) -> (r: bool)
    ensures
        r == is_stop_word_3(w@),
{
    str_is(w, "might") || str_is(w, "most") || str_is(w, "must") || str_is(w, "my") || str_is(w, "neither") || str_is(w, "no") || str_is(w, "nor") || str_is(w, "not") || str_is(w, "of") || str_is(w, "off") || str_is(w, "often") || str_is(w, "on") || str_is(w, "only") || str_is(w, "or") || str_is(w, "other") || str_is(w, "our") || str_is(w, "own") || str_is(w, "rather") || str_is(w, "said") || str_is(w, "say") || str_is(w, "says") || str_is(w, "she") || str_is(w, "should") || str_is(w, "since") || str_is(w, "so") || str_is(w, "some") || str_is(w, "than") || str_is(w, "that") || str_is(w, "the") || str_is(w, "their")
}

fn is_stop_word_4_exec(w: &str) -> (r: bool)
    ensures
        r == is_stop_word_4(w@),
{
    str_is(w, "them") || str_is(w, "then") || str_is(w, "there") || str_is(w, "these") || str_is(w, "they") || str_is(w, "this") || str_is(w, "tis") || str_is(w, "to") || str_is(w, "too") || str_is(w, "twas") || str_is(w, "us") || str_is(w, "wants") || str_is(w, "was") || str_is(w, "we") || str_is(w, "were") || str_is(w, "what") || str_is(w, "when") || str_is(w, "where") || str_is(w, "which") || str_is(w, "while") || str_is(w, "who") || str_is(w, "whom") || str_is(w, "why") || str_is(w, "will") || str_is(w, "with") || str_is(w, "would") || str_is(w, "yet") || str_is(w, "you") || str_is(w, "your")
}

fn is_stop_word_exec(w: &str) -> (r: bool)
    ensures
        r == is_stop_word(w@),
{
    is_stop_word_1_exec(w) || is_stop_word_2_exec(w) || is_stop_word_3_exec(w) || is_stop_word_4_exec(w)
}

/// The words with stop words removed, order kept.
pub open spec fn without_stop_words(ws: Seq<Seq<char>>) -> Seq<Seq<char>>
    decreases ws.len(),
{
    if ws.len() == 0 {
        Seq::empty()
    } else if is_stop_word(ws.last()) {
        without_stop_words(ws.drop_last())
    } else {
        without_stop_words(ws.drop_last()).push(ws.last())
    }
}

/// Drops every stop word, keeping the others in order.
pub fn remove_stops_words(words: &Vec<String>) -> (r: Vec<String>)
    ensures
        views_of(r@) == without_stop_words(views_of(words@)),
{
    let mut out: Vec<String> = Vec::new();
    let mut i: usize = 0;
    proof {
        assert(views_of(words@).subrange(0, 0) =~= Seq::<Seq<char>>::empty());
        assert(views_of(out@) =~= Seq::<Seq<char>>::empty());
    }
    while i < words.len()
        invariant
            i <= words@.len(),
            views_of(out@) == without_stop_words(views_of(words@).subrange(0, i as int)),
        decreases words@.len() - i,
    {
        let ghost wv = views_of(words@);
        let ghost out0 = out@;
        let keep = !is_stop_word_exec(words[i].as_str());
        if keep {
            out.push(words[i].clone());
        }
        proof {
            assert(wv.subrange(0, i + 1).drop_last() =~= wv.subrange(0, i as int));
            assert(wv.subrange(0, i + 1).last() == wv[i as int]);
            assert(wv[i as int] == words@[i as int]@);
            if keep {
                assert(views_of(out@) =~= views_of(out0).push(words@[i as int]@));
            }
        }
        i = i + 1;
    }
    proof {
        assert(views_of(words@).subrange(0, words@.len() as int) =~= views_of(words@));
    }
    out
}

/// What Unicode default case folding turns a word into.
pub uninterp spec fn case_fold_of(s: Seq<char>) -> Seq<char>;

/// Relies on caseless::default_case_fold_str: Unicode default case
/// folding, a function of the input characters alone.
#[verifier::external_body]
fn case_fold_str(w: &str) -> (r: String)
    ensures
        r@ == case_fold_of(w@),
{
    caseless::default_case_fold_str(w)
}

pub open spec fn folded(ws: Seq<Seq<char>>) -> Seq<Seq<char>> {
    ws.map_values(|w: Seq<char>| case_fold_of(w))
}

/// Case folds every word.
pub fn case_fold(words: &Vec<String>) -> (r: Vec<String>)
    ensures
        views_of(r@) == folded(views_of(words@)),
{
    let mut out: Vec<String> = Vec::new();
    let mut i: usize = 0;
    proof {
        assert(views_of(out@) =~= folded(views_of(words@).subrange(0, 0)));
    }
    while i < words.len()
        invariant
            i <= words@.len(),
            views_of(out@) == folded(views_of(words@).subrange(0, i as int)),
        decreases words@.len() - i,
    {
        let ghost wv = views_of(words@);
        let ghost out0 = out@;
        out.push(case_fold_str(words[i].as_str()));
        proof {
            assert(wv.subrange(0, i + 1) =~= wv.subrange(0, i as int).push(words@[i as int]@));
            assert(views_of(out@) =~= views_of(out0).push(case_fold_of(words@[i as int]@)));
            assert(folded(wv.subrange(0, i as int).push(words@[i as int]@)) =~= folded(
                wv.subrange(0, i as int),
            ).push(case_fold_of(words@[i as int]@)));
        }
        i = i + 1;
    }
    proof {
        assert(views_of(words@).subrange(0, words@.len() as int) =~= views_of(words@));
    }
    out
}

/// What the English (Porter 2) stemmer turns a word into.
pub uninterp spec fn stem_of(s: Seq<char>) -> Seq<char>;

/// Relies on rust_stemmers: Stemmer::create(Algorithm::English) selects the
/// fixed English (Porter 2) algorithm and stem's result is a function of
/// the input characters alone.
#[verifier::external_body]
fn stem_word(w: &str) -> (r: String)
    ensures
        r@ == stem_of(w@),
{
    rust_stemmers::Stemmer::create(rust_stemmers::Algorithm::English).stem(w).into_owned()
}

pub open spec fn stemmed(ws: Seq<Seq<char>>) -> Seq<Seq<char>> {
    ws.map_values(|w: Seq<char>| stem_of(w))
}

/// Stems every word.
pub fn stem(words: &Vec<String>) -> (r: Vec<String>)
    ensures
        views_of(r@) == stemmed(views_of(words@)),
{
    let mut out: Vec<String> = Vec::new();
    let mut i: usize = 0;
    proof {
        assert(views_of(out@) =~= stemmed(views_of(words@).subrange(0, 0)));
    }
    while i < words.len()
        invariant
            i <= words@.len(),
            views_of(out@) == stemmed(views_of(words@).subrange(0, i as int)),
        decreases words@.len() - i,
    {
        let ghost wv = views_of(words@);
        let ghost out0 = out@;
        out.push(stem_word(words[i].as_str()));
        proof {
            assert(wv.subrange(0, i + 1) =~= wv.subrange(0, i as int).push(words@[i as int]@));
            assert(views_of(out@) =~= views_of(out0).push(stem_of(words@[i as int]@)));
            assert(stemmed(wv.subrange(0, i as int).push(words@[i as int]@)) =~= stemmed(
                wv.subrange(0, i as int),
            ).push(stem_of(words@[i as int]@)));
        }
        i = i + 1;
    }
    proof {
        assert(views_of(words@).subrange(0, words@.len() as int) =~= views_of(words@));
    }
    out
}

#[verifier::external_type_specification]
#[verifier::external_body]
pub struct ExWordnetStemmer(wordnet_stemmer::WordnetStemmer);

/// Relies on wordnet_stemmer::WordnetStemmer::lemma with the noun part of
/// speech: the lemma depends on the dictionary the stemmer was loaded from,
/// so nothing is assumed of the word it returns.
#[verifier::external_body]
fn lemma_word(stemmer: &wordnet_stemmer::WordnetStemmer, w: &str) -> String {
    stemmer.lemma(wordnet_stemmer::NOUN, w)
}

/// Lemmatizes every word; one word out per word in, each chosen by the
/// loaded WordNet dictionary.
pub fn lemmatize(words: &Vec<String>, stemmer: &wordnet_stemmer::WordnetStemmer) -> (r: Vec<
    String,
>)
    ensures
        r@.len() == words@.len(),
{
    let mut out: Vec<String> = Vec::new();
    let mut i: usize = 0;
    while i < words.len()
        invariant
            i <= words@.len(),
            out@.len() == i,
        decreases words@.len() - i,
    {
        out.push(lemma_word(stemmer, words[i].as_str()));
        i = i + 1;
    }
    out
}

/// The configured normalization pipeline: an immutable value built once and
/// passed to every component that needs it. The lemmatizer, when enabled,
/// carries the WordNet dictionary it was loaded with.
pub struct Preprocessor {
    pub case_folding: bool,
    pub stop_word_removal: bool,
    pub stemming: bool,
    pub lemmatizer: Option<wordnet_stemmer::WordnetStemmer>,
}

/// What the pipeline's exactly-described steps produce, in their fixed
/// order: case folding, then stop-word removal, then stemming.
pub open spec fn preprocessed(
    ws: Seq<Seq<char>>,
    case_folding: bool,
    stop_word_removal: bool,
    stemming: bool,
) -> Seq<Seq<char>> {
    let a = if case_folding {
        folded(ws)
    } else {
        ws
    };
    let b = if stop_word_removal {
        without_stop_words(a)
    } else {
        a
    };
    if stemming {
        stemmed(b)
    } else {
        b
    }
}

/// Builds the pipeline from its switches; the caller supplies a loaded
/// WordNet stemmer to enable lemmatization.
pub fn create_preprocessor(
    enable_case_folding: bool,
    enable_remove_stop_words: bool,
    enable_stemmer: bool,
    lemmatizer: Option<wordnet_stemmer::WordnetStemmer>,
) -> (r: Preprocessor)
    ensures
        r.case_folding == enable_case_folding,
        r.stop_word_removal == enable_remove_stop_words,
        r.stemming == enable_stemmer,
        r.lemmatizer is Some <==> lemmatizer is Some,
{
    Preprocessor {
        case_folding: enable_case_folding,
        stop_word_removal: enable_remove_stop_words,
        stemming: enable_stemmer,
        lemmatizer,
    }
}

/// Runs the enabled steps over the words, in order. With no lemmatizer the
/// result is pinned exactly; lemmatization keeps the word count and leaves
/// each word to the dictionary.
pub fn preprocess(words: &Vec<String>, preprocessor: &Preprocessor) -> (r: Vec<String>)
    ensures
        preprocessor.lemmatizer is None ==> views_of(r@) == preprocessed(
            views_of(words@),
            preprocessor.case_folding,
            preprocessor.stop_word_removal,
            preprocessor.stemming,
        ),
        r@.len() == preprocessed(
            views_of(words@),
            preprocessor.case_folding,
            preprocessor.stop_word_removal,
            preprocessor.stemming,
        ).len(),
{
    let mut processed: Vec<String> = Vec::new();
    let mut i: usize = 0;
    proof {
        assert(views_of(processed@) =~= views_of(words@).subrange(0, 0));
    }
    while i < words.len()
        invariant
            i <= words@.len(),
            views_of(processed@) == views_of(words@).subrange(0, i as int),
        decreases words@.len() - i,
    {
        let ghost out0 = processed@;
        processed.push(words[i].clone());
        proof {
            assert(views_of(processed@) =~= views_of(out0).push(words@[i as int]@));
            assert(views_of(words@).subrange(0, i + 1) =~= views_of(words@).subrange(
                0,
                i as int,
            ).push(words@[i as int]@));
        }
        i = i + 1;
    }
    proof {
        assert(views_of(words@).subrange(0, words@.len() as int) =~= views_of(words@));
    }
    if preprocessor.case_folding {
        processed = case_fold(&processed);
    }
    if preprocessor.stop_word_removal {
        processed = remove_stops_words(&processed);
    }
    if preprocessor.stemming {
        processed = stem(&processed);
    }
    proof {
        assert(views_of(processed@).len() == processed@.len());
    }
    match &preprocessor.lemmatizer {
        Some(stemmer) => {
            processed = lemmatize(&processed, stemmer);
        },
        None => {},
    }
    processed
}

} // verus!
