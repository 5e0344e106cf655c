use vstd::prelude::*;

verus! {

/// The map that a sequence of key/count pairs denotes: later pairs win,
/// though a well-formed `StatsMap` never repeats a key.
pub open spec fn map_from_pairs(p: Seq<(String, usize)>) -> Map<Seq<char>, usize>
    decreases p.len(),
{
    if p.len() == 0 {
        Map::empty()
    } else {
        map_from_pairs(p.drop_last()).insert(p.last().0@, p.last().1)
    }
}

/// A per-document counter: one count for each document id, as the stats
/// file records them. Abstractly a map from document id to count.
pub struct StatsMap {
    pairs: Vec<(String, usize)>,
}

impl View for StatsMap {
    type V = Map<Seq<char>, usize>;

    closed spec fn view(&self) -> Map<Seq<char>, usize> {
        map_from_pairs(self.pairs@)
    }
}

proof fn lemma_map_from_pairs_contains(p: Seq<(String, usize)>, d: Seq<char>)
    ensures
        map_from_pairs(p).contains_key(d) <==> exists|i: int|
            0 <= i < p.len() && (#[trigger] p[i]).0@ == d,
    decreases p.len(),
{
    if p.len() > 0 {
        lemma_map_from_pairs_contains(p.drop_last(), d);
        if map_from_pairs(p).contains_key(d) {
            if p.last().0@ == d {
                assert(p[p.len() - 1].0@ == d);
            } else {
                let pd = p.drop_last();
                let i = choose|i: int| 0 <= i < pd.len() && (#[trigger] pd[i]).0@ == d;
                assert(p[i].0@ == d);
            }
        }
        if exists|i: int| 0 <= i < p.len() && (#[trigger] p[i]).0@ == d {
            let i = choose|i: int| 0 <= i < p.len() && (#[trigger] p[i]).0@ == d;
            if i < p.len() - 1 {
                assert(p.drop_last()[i].0@ == d);
            }
        }
    }
}

proof fn lemma_map_from_pairs_at(p: Seq<(String, usize)>, i: int)
    requires
        0 <= i < p.len(),
        forall|x: int, y: int|
            0 <= x < y < p.len() ==> (#[trigger] p[x]).0@ != (#[trigger] p[y]).0@,
    ensures
        map_from_pairs(p).contains_key(p[i].0@),
        map_from_pairs(p)[p[i].0@] == p[i].1,
    decreases p.len(),
{
    if i == p.len() - 1 {
    } else {
        lemma_map_from_pairs_at(p.drop_last(), i);
        assert(p.drop_last()[i] == p[i]);
        assert(p[i].0@ != p[p.len() - 1].0@);
    }
}

impl StatsMap {
    /// Every document id appears at most once among the pairs.
    pub closed spec fn wf(&self) -> bool {
        forall|x: int, y: int|
            0 <= x < y < self.pairs@.len() ==> (#[trigger] self.pairs@[x]).0@
                != (#[trigger] self.pairs@[y]).0@
    }

    /// The pairs as they will be serialized, in insertion order.
    pub closed spec fn pairs_view(&self) -> Seq<(Seq<char>, usize)> {
        self.pairs@.map_values(|q: (String, usize)| (q.0@, q.1))
    }

    pub fn new() -> (r: StatsMap)
        ensures
            r@ == Map::<Seq<char>, usize>::empty(),
            r.wf(),
            r.pairs_view() == Seq::<(Seq<char>, usize)>::empty(),
    {
        let r = StatsMap { pairs: Vec::new() };
        proof {
            assert(r.pairs_view() =~= Seq::<(Seq<char>, usize)>::empty());
        }
        r
    }

    /// Adds `amount` to the count recorded for `doc`, starting from zero for
    /// a document not seen before.
    pub fn add(&mut self, doc: &String, amount: usize)
        requires
            old(self).wf(),
            old(self)@.contains_key(doc@) ==> old(self)@[doc@] + amount <= usize::MAX,
        ensures
            final(self).wf(),
            final(self)@ == if old(self)@.contains_key(doc@) {
                old(self)@.insert(doc@, (old(self)@[doc@] + amount) as usize)
            } else {
                old(self)@.insert(doc@, amount)
            },
    {
        let ghost p0 = self.pairs@;
        let mut i: usize = 0;
        while i < self.pairs.len()
            invariant
                i <= self.pairs@.len(),
                self.pairs@ == p0,
                old(self).wf(),
                self == old(self),
                old(self)@.contains_key(doc@) ==> old(self)@[doc@] + amount <= usize::MAX,
                forall|k: int| 0 <= k < i ==> (#[trigger] p0[k]).0@ != doc@,
            decreases self.pairs@.len() - i,
        {
            if self.pairs[i].0 == *doc {
                proof {
                    lemma_map_from_pairs_at(p0, i as int);
                }
                let (key, value) = self.pairs.remove(i);
                let new_value = value + amount;
                self.pairs.insert(i, (key, new_value));
                proof {
                    assert(self.pairs@ =~= p0.update(i as int, (p0[i as int].0, new_value)));
                    lemma_map_update_pair(p0, i as int, new_value);
                    assert(self@ =~= old(self)@.insert(doc@, new_value));
                }
                return ;
            }
            i = i + 1;
        }
        proof {
            lemma_map_from_pairs_contains(p0, doc@);
        }
        self.pairs.push((doc.clone(), amount));
        proof {
            assert(self.pairs@.drop_last() =~= p0);
            assert(self.pairs@.last().0@ == doc@);
        }
    }

    /// The count recorded for `doc`, if any.
    pub fn get(&self, doc: &String) -> (r: Option<usize>)
        requires
            self.wf(),
        ensures
            r == if self@.contains_key(doc@) {
                Some(self@[doc@])
            } else {
                Option::<usize>::None
            },
    {
        let mut i: usize = 0;
        while i < self.pairs.len()
            invariant
                i <= self.pairs@.len(),
                self.wf(),
                forall|k: int| 0 <= k < i ==> (#[trigger] self.pairs@[k]).0@ != doc@,
            decreases self.pairs@.len() - i,
        {
            if self.pairs[i].0 == *doc {
                proof {
                    lemma_map_from_pairs_at(self.pairs@, i as int);
                }
                return Some(self.pairs[i].1);
            }
            i = i + 1;
        }
        proof {
            lemma_map_from_pairs_contains(self.pairs@, doc@);
        }
        None
    }

    /// How many documents have a recorded count.
    pub fn count(&self) -> (r: usize)
        requires
            self.wf(),
        ensures
            r == self@.dom().len(),
            r == self.pairs_view().len(),
    {
        proof {
            lemma_map_from_pairs_card(self.pairs@);
            assert(self.pairs_view().len() == self.pairs@.len());
        }
        self.pairs.len()
    }
}

/// Updating the value carried by one pair updates the denoted map at its key.
proof fn lemma_map_update_pair(p: Seq<(String, usize)>, i: int, v: usize)
    requires
        0 <= i < p.len(),
        forall|x: int, y: int|
            0 <= x < y < p.len() ==> (#[trigger] p[x]).0@ != (#[trigger] p[y]).0@,
    ensures
        map_from_pairs(p.update(i, (p[i].0, v))) =~= map_from_pairs(p).insert(p[i].0@, v),
    decreases p.len(),
{
    let q = p.update(i, (p[i].0, v));
    if i == p.len() - 1 {
        assert(q.drop_last() =~= p.drop_last());
        assert(q.last() == (p[i].0, v));
    } else {
        assert(q.drop_last() =~= p.drop_last().update(i, (p[i].0, v)));
        assert(p.drop_last()[i] == p[i]);
        lemma_map_update_pair(p.drop_last(), i, v);
        assert(q.last() == p.last());
        assert(p[i].0@ != p[p.len() - 1].0@);
    }
}

/// With distinct keys, the denoted map has exactly one entry per pair.
proof fn lemma_map_from_pairs_card(p: Seq<(String, usize)>)
    requires
        forall|x: int, y: int|
            0 <= x < y < p.len() ==> (#[trigger] p[x]).0@ != (#[trigger] p[y]).0@,
    ensures
        map_from_pairs(p).dom().finite(),
        map_from_pairs(p).dom().len() == p.len(),
    decreases p.len(),
{
    if p.len() == 0 {
        assert(map_from_pairs(p).dom() =~= Set::<Seq<char>>::empty());
    } else {
        lemma_map_from_pairs_card(p.drop_last());
        lemma_map_from_pairs_contains(p.drop_last(), p.last().0@);
        let pd = p.drop_last();
        assert forall|i: int| 0 <= i < pd.len() implies (#[trigger] pd[i]).0@ != p.last().0@ by {
            assert(p[i].0@ != p[p.len() - 1].0@);
        }
        assert(!map_from_pairs(p.drop_last()).contains_key(p.last().0@));
        assert(map_from_pairs(p).dom() =~= map_from_pairs(p.drop_last()).dom().insert(
            p.last().0@,
        ));
    }
}

/// What serde_json produces for the two counters: a function of the
/// recorded pairs alone.
pub uninterp spec fn stats_json_of(
    terms: Seq<(Seq<char>, usize)>,
    length: Seq<(Seq<char>, usize)>,
) -> Seq<char>;

/// Relies on serde_json: renders one JSON object with keys "terms" and
/// "length", each mapping document ids to their counts. serde_json orders
/// the keys itself, so the text depends on the recorded pairs alone.
#[verifier::external_body]
fn stats_json(terms_counter: &StatsMap, length_counter: &StatsMap) -> (r: String)
    ensures
        r@ == stats_json_of(terms_counter.pairs_view(), length_counter.pairs_view()),
{
    let mut terms = serde_json::Map::new();
    for (doc, count) in terms_counter.pairs.iter() {
        terms.insert(doc.clone(), serde_json::Value::from(*count as u64));
    }
    let mut length = serde_json::Map::new();
    for (doc, count) in length_counter.pairs.iter() {
        length.insert(doc.clone(), serde_json::Value::from(*count as u64));
    }
    let mut stats = serde_json::Map::new();
    stats.insert(String::from("terms"), serde_json::Value::Object(terms));
    stats.insert(String::from("length"), serde_json::Value::Object(length));
    serde_json::Value::Object(stats).to_string()
}

/// Serializes the two per-document counters as the stats record: one JSON
/// object with the distinct-term counts under "terms" and the total term
/// occurrences under "length".
pub fn write_documents_stats(
    document_terms_counter: &StatsMap,
    document_length_counter: &StatsMap,
) -> (r: String)
    ensures
        r@ == stats_json_of(
            document_terms_counter.pairs_view(),
            document_length_counter.pairs_view(),
        ),
{
    stats_json(document_terms_counter, document_length_counter)
}

} // verus!
