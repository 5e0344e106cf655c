use vstd::prelude::*;

verus! {

/// Number of tokens in `s` that carry document id `d` and term `t`.
pub open spec fn count_pair(s: Seq<(Seq<char>, Seq<char>)>, d: Seq<char>, t: Seq<char>) -> nat
    decreases s.len(),
{
    if s.len() == 0 {
        0
    } else {
        count_pair(s.drop_last(), d, t) + if s.last() == (d, t) {
            1nat
        } else {
            0nat
        }
    }
}

/// Number of tokens in `s` that carry document id `d`, whatever the term.
pub open spec fn count_doc(s: Seq<(Seq<char>, Seq<char>)>, d: Seq<char>) -> nat
    decreases s.len(),
{
    if s.len() == 0 {
        0
    } else {
        count_doc(s.drop_last(), d) + if s.last().0 == d {
            1nat
        } else {
            0nat
        }
    }
}

pub proof fn lemma_count_pair_le_len(s: Seq<(Seq<char>, Seq<char>)>, d: Seq<char>, t: Seq<char>)
    ensures
        count_pair(s, d, t) <= s.len(),
    decreases s.len(),
{
    if s.len() > 0 {
        lemma_count_pair_le_len(s.drop_last(), d, t);
    }
}

pub proof fn lemma_count_doc_le_len(s: Seq<(Seq<char>, Seq<char>)>, d: Seq<char>)
    ensures
        count_doc(s, d) <= s.len(),
    decreases s.len(),
{
    if s.len() > 0 {
        lemma_count_doc_le_len(s.drop_last(), d);
    }
}

pub proof fn lemma_count_pair_concat(
    s1: Seq<(Seq<char>, Seq<char>)>,
    s2: Seq<(Seq<char>, Seq<char>)>,
    d: Seq<char>,
    t: Seq<char>,
)
    ensures
        count_pair(s1 + s2, d, t) == count_pair(s1, d, t) + count_pair(s2, d, t),
    decreases s2.len(),
{
    if s2.len() == 0 {
        assert(s1 + s2 =~= s1);
    } else {
        assert((s1 + s2).drop_last() =~= s1 + s2.drop_last());
        assert((s1 + s2).last() == s2.last());
        lemma_count_pair_concat(s1, s2.drop_last(), d, t);
    }
}

/// An element of the sequence is counted at least once.
pub proof fn lemma_count_pair_at(s: Seq<(Seq<char>, Seq<char>)>, k: int)
    requires
        0 <= k < s.len(),
    ensures
        count_pair(s, s[k].0, s[k].1) >= 1,
    decreases s.len(),
{
    if k == s.len() - 1 {
        assert(s.last() == s[k]);
    } else {
        lemma_count_pair_at(s.drop_last(), k);
        assert(s.drop_last()[k] == s[k]);
    }
}

/// A sequence in which no token carries term `t` contributes no `(d, t)` pairs.
pub proof fn lemma_count_pair_absent_term(
    s: Seq<(Seq<char>, Seq<char>)>,
    d: Seq<char>,
    t: Seq<char>,
)
    requires
        forall|k: int| 0 <= k < s.len() ==> (#[trigger] s[k]).1 != t,
    ensures
        count_pair(s, d, t) == 0,
    decreases s.len(),
{
    if s.len() > 0 {
        assert(s.last() == s[s.len() - 1]);
        lemma_count_pair_absent_term(s.drop_last(), d, t);
    }
}

/// In a sequence whose tokens all carry term `t`, counting `(d, t)` pairs
/// is counting occurrences of document `d`.
pub proof fn lemma_count_pair_single_term(
    s: Seq<(Seq<char>, Seq<char>)>,
    d: Seq<char>,
    t: Seq<char>,
)
    requires
        forall|k: int| 0 <= k < s.len() ==> (#[trigger] s[k]).1 == t,
    ensures
        count_pair(s, d, t) == count_doc(s, d),
    decreases s.len(),
{
    if s.len() > 0 {
        assert(s.last() == s[s.len() - 1]);
        lemma_count_pair_single_term(s.drop_last(), d, t);
    }
}

/// Inserting one token changes only the count of its own pair, by one.
pub proof fn lemma_count_pair_insert(
    s: Seq<(Seq<char>, Seq<char>)>,
    i: int,
    x: (Seq<char>, Seq<char>),
    d: Seq<char>,
    t: Seq<char>,
)
    requires
        0 <= i <= s.len(),
    ensures
        count_pair(s.insert(i, x), d, t) == count_pair(s, d, t) + if x == (d, t) {
            1int
        } else {
            0int
        },
{
    assert(s.insert(i, x) =~= s.subrange(0, i) + (seq![x] + s.subrange(i, s.len() as int)));
    lemma_count_pair_concat(s.subrange(0, i), seq![x] + s.subrange(i, s.len() as int), d, t);
    lemma_count_pair_concat(seq![x], s.subrange(i, s.len() as int), d, t);
    assert(count_pair(seq![x], d, t) == if x == (d, t) {
        1int
    } else {
        0int
    }) by {
        assert(seq![x].drop_last() =~= Seq::<(Seq<char>, Seq<char>)>::empty());
        assert(seq![x].last() == x);
        assert(count_pair(seq![x].drop_last(), d, t) == 0);
    }
    assert(s =~= s.subrange(0, i) + s.subrange(i, s.len() as int));
    lemma_count_pair_concat(s.subrange(0, i), s.subrange(i, s.len() as int), d, t);
}

/// The views of a sequence of strings.
pub open spec fn views_of(ws: Seq<String>) -> Seq<Seq<char>> {
    ws.map_values(|w: String| w@)
}

/// Number of occurrences of the word `w` in `s`.
pub open spec fn count_word(s: Seq<Seq<char>>, w: Seq<char>) -> nat
    decreases s.len(),
{
    if s.len() == 0 {
        0
    } else {
        count_word(s.drop_last(), w) + if s.last() == w {
            1nat
        } else {
            0nat
        }
    }
}

pub proof fn lemma_count_word_le_len(s: Seq<Seq<char>>, w: Seq<char>)
    ensures
        count_word(s, w) <= s.len(),
    decreases s.len(),
{
    if s.len() > 0 {
        lemma_count_word_le_len(s.drop_last(), w);
    }
}

pub proof fn lemma_count_word_push(s: Seq<Seq<char>>, x: Seq<char>, w: Seq<char>)
    ensures
        count_word(s.push(x), w) == count_word(s, w) + if x == w {
            1int
        } else {
            0int
        },
{
    assert(s.push(x).drop_last() =~= s);
    assert(s.push(x).last() == x);
}

pub proof fn lemma_count_pair_push(
    s: Seq<(Seq<char>, Seq<char>)>,
    x: (Seq<char>, Seq<char>),
    d: Seq<char>,
    t: Seq<char>,
)
    ensures
        count_pair(s.push(x), d, t) == count_pair(s, d, t) + if x == (d, t) {
            1int
        } else {
            0int
        },
{
    assert(s.push(x).drop_last() =~= s);
    assert(s.push(x).last() == x);
}

/// A pair that is counted occurs in the sequence.
pub proof fn lemma_count_pair_occurs(s: Seq<(Seq<char>, Seq<char>)>, d: Seq<char>, t: Seq<char>)
    requires
        count_pair(s, d, t) > 0,
    ensures
        exists|k: int| 0 <= k < s.len() && s[k] == (d, t),
    decreases s.len(),
{
    if s.len() > 0 {
        if s.last() == (d, t) {
            assert(s[s.len() - 1] == (d, t));
        } else {
            lemma_count_pair_occurs(s.drop_last(), d, t);
            let k = choose|k: int|
                0 <= k < s.drop_last().len() && s.drop_last()[k] == (d, t);
            assert(s[k] == (d, t));
        }
    }
}

/// The document ids of a token sequence, in order.
pub open spec fn doc_seq(s: Seq<(Seq<char>, Seq<char>)>) -> Seq<Seq<char>> {
    s.map_values(|p: (Seq<char>, Seq<char>)| p.0)
}

/// Counting a document among the first components of pairs is counting the
/// document among the pairs themselves.
pub proof fn lemma_count_word_of_docs(s: Seq<(Seq<char>, Seq<char>)>, d: Seq<char>)
    ensures
        count_word(doc_seq(s), d) == count_doc(s, d),
    decreases s.len(),
{
    let f = |p: (Seq<char>, Seq<char>)| p.0;
    if s.len() == 0 {
    } else {
        assert(doc_seq(s).drop_last() =~= doc_seq(s.drop_last()));
        assert(doc_seq(s).last() == f(s.last()));
        lemma_count_word_of_docs(s.drop_last(), d);
    }
}

/// How many distinct documents a token sequence mentions.
pub open spec fn doc_count_of(s: Seq<(Seq<char>, Seq<char>)>) -> nat {
    doc_seq(s).to_set().len()
}

/// Concatenation of a sequence of token slices.
pub open spec fn concat_slices(ss: Seq<Seq<(Seq<char>, Seq<char>)>>) -> Seq<
    (Seq<char>, Seq<char>),
>
    decreases ss.len(),
{
    if ss.len() == 0 {
        Seq::empty()
    } else {
        concat_slices(ss.drop_last()) + ss.last()
    }
}

pub proof fn lemma_concat_slices_count(
    ss: Seq<Seq<(Seq<char>, Seq<char>)>>,
    d: Seq<char>,
    t: Seq<char>,
)
    ensures
        count_pair(concat_slices(ss), d, t) > 0 <==> exists|b: int|
            0 <= b < ss.len() && count_pair(#[trigger] ss[b], d, t) > 0,
    decreases ss.len(),
{
    if ss.len() > 0 {
        lemma_concat_slices_count(ss.drop_last(), d, t);
        lemma_count_pair_concat(concat_slices(ss.drop_last()), ss.last(), d, t);
        if count_pair(ss.last(), d, t) > 0 {
            assert(ss[ss.len() - 1] == ss.last());
        }
        if exists|b: int| 0 <= b < ss.len() && count_pair(#[trigger] ss[b], d, t) > 0 {
            let b = choose|b: int| 0 <= b < ss.len() && count_pair(#[trigger] ss[b], d, t) > 0;
            if b < ss.len() - 1 {
                assert(ss.drop_last()[b] == ss[b]);
            }
        }
    }
}

pub proof fn lemma_concat_slices_step(
    ss: Seq<Seq<(Seq<char>, Seq<char>)>>,
    b: int,
    d: Seq<char>,
    t: Seq<char>,
)
    requires
        0 <= b < ss.len(),
    ensures
        count_pair(concat_slices(ss.subrange(0, b + 1)), d, t) == count_pair(
            concat_slices(ss.subrange(0, b)),
            d,
            t,
        ) + count_pair(ss[b], d, t),
{
    assert(ss.subrange(0, b + 1).drop_last() =~= ss.subrange(0, b));
    assert(ss.subrange(0, b + 1).last() == ss[b]);
    lemma_count_pair_concat(concat_slices(ss.subrange(0, b)), ss[b], d, t);
}

pub proof fn lemma_concat_slices_prefix_le(
    ss: Seq<Seq<(Seq<char>, Seq<char>)>>,
    y: int,
    d: Seq<char>,
    t: Seq<char>,
)
    requires
        0 <= y <= ss.len(),
    ensures
        count_pair(concat_slices(ss.subrange(0, y)), d, t) <= count_pair(concat_slices(ss), d, t),
    decreases ss.len() - y,
{
    if y == ss.len() {
        assert(ss.subrange(0, y) =~= ss);
    } else {
        lemma_concat_slices_step(ss, y, d, t);
        lemma_concat_slices_prefix_le(ss, y + 1, d, t);
    }
}

} // verus!
