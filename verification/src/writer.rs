use vstd::prelude::*;

use crate::indexing::{postings_has, postings_wf, IndexEntry, PostingEntry};
use crate::stats::StatsMap;

verus! {

/// The character for one decimal digit.
pub open spec fn digit_char(d: nat) -> char {
    ((d + 0x30) as u8) as char
}

/// Decimal digits of `n`, most significant first.
pub open spec fn dec_rep(n: nat) -> Seq<char>
    decreases n,
{
    if n < 10 {
        seq![digit_char(n)]
    } else {
        dec_rep(n / 10).push(digit_char(n % 10))
    }
}

/// Relies on String::push: appends exactly one character.
#[verifier::external_body]
fn push_char(s: &mut String, c: char)
    ensures
        final(s)@ == old(s)@.push(c),
{
    s.push(c);
}

/// Appends the decimal representation of `n`.
pub fn write_dec(n: usize, out: &mut String)
    ensures
        final(out)@ == old(out)@ + dec_rep(n as nat),
    decreases n,
{
    if n >= 10 {
        write_dec(n / 10, out);
    }
    let ghost mid = out@;
    let d = (n % 10) as u8 + 48;
    push_char(out, d as char);
    proof {
        assert(d as char == digit_char((n % 10) as nat));
        if n < 10 {
            assert(dec_rep(n as nat) =~= seq![digit_char(n as nat)]);
            assert(out@ =~= old(out)@ + dec_rep(n as nat));
        } else {
            assert(mid == old(out)@ + dec_rep(n as nat / 10));
            assert(dec_rep(n as nat) == dec_rep(n as nat / 10).push(digit_char(n as nat % 10)));
            assert(out@ =~= old(out)@ + dec_rep(n as nat));
        }
    }
}

/// One posting as written: `document_id|term_frequency`.
pub open spec fn render_posting(p: PostingEntry) -> Seq<char> {
    p.0@ + seq!['|'] + dec_rep(p.1 as nat)
}

/// A postings list as written: postings joined by `,`.
pub open spec fn render_postings(ps: Seq<PostingEntry>) -> Seq<char>
    decreases ps.len(),
{
    if ps.len() == 0 {
        Seq::empty()
    } else if ps.len() == 1 {
        render_posting(ps[0])
    } else {
        render_postings(ps.drop_last()) + seq![','] + render_posting(ps.last())
    }
}

/// One index line: term, document frequency, postings, newline.
pub open spec fn render_entry(term: Seq<char>, ps: Seq<PostingEntry>) -> Seq<char> {
    term + seq!['\t'] + dec_rep(ps.len()) + seq!['\t'] + render_postings(ps) + seq!['\n']
}

/// Appends one index line for `term`: the term, its document frequency,
/// and the postings encoded `document_id|term_frequency`, comma-joined.
pub fn write_index_entry(out: &mut String, term: &String, postings_list: &Vec<PostingEntry>)
    ensures
        final(out)@ == old(out)@ + render_entry(term@, postings_list@),
{
    out.append(term.as_str());
    push_char(out, '\t');
    write_dec(postings_list.len(), out);
    push_char(out, '\t');
    let ghost head = old(out)@ + term@ + seq!['\t'] + dec_rep(postings_list@.len()) + seq!['\t'];
    proof {
        assert(out@ =~= head);
        assert(render_postings(postings_list@.subrange(0, 0)) =~= Seq::<char>::empty());
        assert(out@ =~= head + render_postings(postings_list@.subrange(0, 0)));
    }
    let mut k: usize = 0;
    while k < postings_list.len()
        invariant
            k <= postings_list@.len(),
            out@ == head + render_postings(postings_list@.subrange(0, k as int)),
        decreases postings_list@.len() - k,
    {
        let ghost sofar = out@;
        let ghost pre = postings_list@.subrange(0, k as int);
        if k > 0 {
            push_char(out, ',');
        }
        out.append(postings_list[k].0.as_str());
        push_char(out, '|');
        write_dec(postings_list[k].1, out);
        proof {
            let p = postings_list@[k as int];
            let nxt = postings_list@.subrange(0, k as int + 1);
            assert(nxt.drop_last() =~= pre);
            assert(nxt.last() == p);
            if k == 0 {
                assert(render_postings(nxt) == render_posting(p)) by {
                    assert(nxt.len() == 1);
                    assert(nxt[0] == p);
                }
                assert(out@ =~= sofar + (p.0@ + seq!['|'] + dec_rep(p.1 as nat)));
                assert(out@ =~= head + render_postings(nxt));
            } else {
                assert(render_postings(nxt) == render_postings(pre) + seq![','] + render_posting(
                    p,
                ));
                assert(out@ =~= sofar + (seq![','] + (p.0@ + seq!['|'] + dec_rep(p.1 as nat))));
                assert(out@ =~= head + render_postings(nxt));
            }
        }
        k = k + 1;
    }
    push_char(out, '\n');
    proof {
        assert(postings_list@.subrange(0, postings_list@.len() as int) =~= postings_list@);
        assert(out@ =~= old(out)@ + render_entry(term@, postings_list@));
    }
}

/// Finalizes one term's postings list: hands every posting to the two
/// per-document counters once, then appends the term's index line.
pub fn flush_index_entry(
    out: &mut String,
    term: &String,
    postings_list: &Vec<PostingEntry>,
    document_terms_counter: &mut StatsMap,
    document_length_counter: &mut StatsMap,
)
    requires
        old(document_terms_counter).wf(),
        old(document_length_counter).wf(),
        postings_wf(postings_list@),
        forall|k: int|
            0 <= k < postings_list@.len() ==> (old(document_terms_counter)@.contains_key(
                (#[trigger] postings_list@[k]).0@,
            ) ==> old(document_terms_counter)@[postings_list@[k].0@] + 1 <= usize::MAX),
        forall|k: int|
            0 <= k < postings_list@.len() ==> (old(document_length_counter)@.contains_key(
                (#[trigger] postings_list@[k]).0@,
            ) ==> old(document_length_counter)@[postings_list@[k].0@] + postings_list@[k].1
                <= usize::MAX),
    ensures
        final(out)@ == old(out)@ + render_entry(term@, postings_list@),
        final(document_terms_counter).wf(),
        final(document_length_counter).wf(),
        forall|d: Seq<char>|
            !(#[trigger] postings_has(postings_list@, d)) ==> (final(document_terms_counter)@.contains_key(d) == old(document_terms_counter)@.contains_key(d) && final(document_length_counter)@.contains_key(d) == old(document_length_counter)@.contains_key(d) && (old(document_terms_counter)@.contains_key(d) ==> final(document_terms_counter)@[d] == old(document_terms_counter)@[d]) && (old(document_length_counter)@.contains_key(d) ==> final(document_length_counter)@[d] == old(document_length_counter)@[d])),
        forall|k: int|
            0 <= k < postings_list@.len() ==> final(document_terms_counter)@.contains_key(
                (#[trigger] postings_list@[k]).0@,
            ) && final(document_terms_counter)@[postings_list@[k].0@] as int == if old(document_terms_counter)@.contains_key(postings_list@[k].0@) {
                old(document_terms_counter)@[postings_list@[k].0@] + 1int
            } else {
                1int
            },
        forall|k: int|
            0 <= k < postings_list@.len() ==> final(document_length_counter)@.contains_key(
                (#[trigger] postings_list@[k]).0@,
            ) && final(document_length_counter)@[postings_list@[k].0@] as int == if old(document_length_counter)@.contains_key(postings_list@[k].0@) {
                old(document_length_counter)@[postings_list@[k].0@] + postings_list@[k].1
            } else {
                postings_list@[k].1 as int
            },
{
    let ghost p = postings_list@;
    let mut k: usize = 0;
    while k < postings_list.len()
        invariant
            k <= p.len(),
            p == postings_list@,
            postings_wf(p),
            document_terms_counter.wf(),
            document_length_counter.wf(),
            forall|j: int|
                0 <= j < p.len() ==> (old(document_terms_counter)@.contains_key(
                    (#[trigger] p[j]).0@,
                ) ==> old(document_terms_counter)@[p[j].0@] + 1 <= usize::MAX),
            forall|j: int|
                0 <= j < p.len() ==> (old(document_length_counter)@.contains_key(
                    (#[trigger] p[j]).0@,
                ) ==> old(document_length_counter)@[p[j].0@] + p[j].1 <= usize::MAX),
            forall|d: Seq<char>|
                !(#[trigger] postings_has(p.subrange(0, k as int), d))
                    ==> (document_terms_counter@.contains_key(d) == old(document_terms_counter)@.contains_key(d) && (old(document_terms_counter)@.contains_key(d)
                    ==> document_terms_counter@[d] == old(document_terms_counter)@[d])
                    && document_length_counter@.contains_key(d) == old(document_length_counter)@.contains_key(d) && (old(document_length_counter)@.contains_key(d)
                    ==> document_length_counter@[d] == old(document_length_counter)@[d])),
            forall|j: int|
                0 <= j < k ==> document_terms_counter@.contains_key((#[trigger] p[j]).0@)
                    && document_terms_counter@[p[j].0@] as int == if old(document_terms_counter)@.contains_key(p[j].0@) {
                    old(document_terms_counter)@[p[j].0@] + 1int
                } else {
                    1int
                },
            forall|j: int|
                0 <= j < k ==> document_length_counter@.contains_key((#[trigger] p[j]).0@)
                    && document_length_counter@[p[j].0@] as int == if old(document_length_counter)@.contains_key(p[j].0@) {
                    old(document_length_counter)@[p[j].0@] + p[j].1
                } else {
                    p[j].1 as int
                },
        decreases p.len() - k,
    {
        let ghost dv = p[k as int].0@;
        proof {
            assert(!postings_has(p.subrange(0, k as int), dv)) by {
                if postings_has(p.subrange(0, k as int), dv) {
                    let y = choose|y: int|
                        0 <= y < k && (#[trigger] p.subrange(0, k as int)[y]).0@ == dv;
                    assert(p[y].0@ == p[k as int].0@);
                }
            }
        }
        let doc = postings_list[k].0.clone();
        let tf = postings_list[k].1;
        let ghost tm0 = document_terms_counter@;
        let ghost lm0 = document_length_counter@;
        document_terms_counter.add(&doc, 1);
        document_length_counter.add(&doc, tf);
        proof {
            assert forall|d: Seq<char>|
                d != dv implies (document_terms_counter@.contains_key(d) == tm0.contains_key(d) && (
                tm0.contains_key(d) ==> document_terms_counter@[d] == tm0[d])
                    && document_length_counter@.contains_key(d) == lm0.contains_key(d) && (
                lm0.contains_key(d) ==> document_length_counter@[d] == lm0[d])) by {}
            assert forall|d: Seq<char>|
                #[trigger] postings_has(p.subrange(0, k as int + 1), d) implies (postings_has(
                p.subrange(0, k as int),
                d,
            ) || d == dv) by {
                let y = choose|y: int|
                    0 <= y < k + 1 && (#[trigger] p.subrange(0, k as int + 1)[y]).0@ == d;
                if y < k {
                    assert(p.subrange(0, k as int)[y].0@ == d);
                }
            }
            assert forall|j: int| 0 <= j < k + 1 implies document_terms_counter@.contains_key(
                (#[trigger] p[j]).0@,
            ) by {
                if j < k {
                    assert(p[j].0@ != dv);
                }
            }
            assert forall|d: Seq<char>|
                !(#[trigger] postings_has(p.subrange(0, k as int + 1), d)) implies (
            document_terms_counter@.contains_key(d) == old(document_terms_counter)@.contains_key(d)
                && (old(document_terms_counter)@.contains_key(d) ==> document_terms_counter@[d]
                == old(document_terms_counter)@[d]) && document_length_counter@.contains_key(d)
                == old(document_length_counter)@.contains_key(d) && (old(document_length_counter)@.contains_key(d) ==> document_length_counter@[d] == old(document_length_counter)@[d])) by {
                assert(d != dv) by {
                    assert(p.subrange(0, k as int + 1)[k as int].0@ == dv);
                }
                assert(!postings_has(p.subrange(0, k as int), d)) by {
                    if postings_has(p.subrange(0, k as int), d) {
                        let y = choose|y: int|
                            0 <= y < k && (#[trigger] p.subrange(0, k as int)[y]).0@ == d;
                        assert(p.subrange(0, k as int + 1)[y].0@ == d);
                    }
                }
                assert(tm0.contains_key(d) == old(document_terms_counter)@.contains_key(d));
                assert(lm0.contains_key(d) == old(document_length_counter)@.contains_key(d));
            }
        }
        k = k + 1;
    }
    proof {
        assert(p.subrange(0, p.len() as int) =~= p);
        assert forall|d: Seq<char>| !(#[trigger] postings_has(p, d)) implies !postings_has(
            p.subrange(0, p.len() as int),
            d,
        ) by {}
    }
    write_index_entry(out, term, postings_list);
}

/// The whole index file: the document-count header line, then one line per
/// term in ascending order.
pub open spec fn render_entries(idx: Seq<IndexEntry>) -> Seq<char>
    decreases idx.len(),
{
    if idx.len() == 0 {
        Seq::empty()
    } else {
        render_entries(idx.drop_last()) + render_entry(
            idx.last().term@,
            idx.last().postings@,
        )
    }
}

pub open spec fn render_index_spec(count: nat, idx: Seq<IndexEntry>) -> Seq<char> {
    dec_rep(count) + seq!['\n'] + render_entries(idx)
}

/// Serializes the index: header first, then each term's line, in order,
/// in one forward pass.
pub fn render_index(document_count: usize, entries: &Vec<IndexEntry>) -> (r: String)
    ensures
        r@ == render_index_spec(document_count as nat, entries@),
{
    let mut out = String::new();
    write_dec(document_count, &mut out);
    push_char(&mut out, '\n');
    let ghost head = dec_rep(document_count as nat) + seq!['\n'];
    proof {
        assert(out@ =~= head);
        assert(render_entries(entries@.subrange(0, 0)) =~= Seq::<char>::empty());
        assert(out@ =~= head + render_entries(entries@.subrange(0, 0)));
    }
    let mut x: usize = 0;
    while x < entries.len()
        invariant
            x <= entries@.len(),
            out@ == head + render_entries(entries@.subrange(0, x as int)),
        decreases entries@.len() - x,
    {
        let ghost pre = entries@.subrange(0, x as int);
        let ghost sofar = out@;
        write_index_entry(&mut out, &entries[x].term, &entries[x].postings);
        proof {
            let nxt = entries@.subrange(0, x as int + 1);
            assert(nxt.drop_last() =~= pre);
            assert(nxt.last() == entries@[x as int]);
            assert(out@ =~= head + render_entries(nxt));
        }
        x = x + 1;
    }
    proof {
        assert(entries@.subrange(0, entries@.len() as int) =~= entries@);
    }
    out
}

} // verus!
