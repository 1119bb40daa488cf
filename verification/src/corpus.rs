//! The Corpus: the author-keyed two-level frequency map for one input file,
//! and the merge laws that make its construction independent of batching and
//! scheduling.

use vstd::prelude::*;

use crate::assoc::{
    assoc_view, find_slot, lemma_assoc_view_insert, lemma_assoc_view_update, lemma_lookup_at,
    lemma_lookup_has, lemma_sorted_distinct, seq_has_key, seq_lookup, sorted_entries,
};
use crate::bytes::lex_lt;
use crate::wordcount::{get0, sat_add, wc_merge, WordCount};

verus! {

/// The word frequencies under author `k`, taking an absent author as empty.
pub open spec fn get_wc(m: Map<Seq<u8>, Map<Seq<u8>, u64>>, k: Seq<u8>) -> Map<Seq<u8>, u64> {
    if m.contains_key(k) {
        m[k]
    } else {
        Map::empty()
    }
}

/// `m` with the counts `w` folded into author `k`'s frequencies.
pub open spec fn corpus_add(
    m: Map<Seq<u8>, Map<Seq<u8>, u64>>,
    k: Seq<u8>,
    w: Map<Seq<u8>, u64>,
) -> Map<Seq<u8>, Map<Seq<u8>, u64>> {
    m.insert(k, wc_merge(get_wc(m, k), w))
}

/// The author-wise merge of two corpora.
pub open spec fn corpus_merge(
    a: Map<Seq<u8>, Map<Seq<u8>, u64>>,
    b: Map<Seq<u8>, Map<Seq<u8>, u64>>,
) -> Map<Seq<u8>, Map<Seq<u8>, u64>> {
    Map::new(
        |k: Seq<u8>| a.contains_key(k) || b.contains_key(k),
        |k: Seq<u8>| wc_merge(get_wc(a, k), get_wc(b, k)),
    )
}

/// The full author-to-word-frequency aggregate for one input file: authors
/// (raw bytes) paired with their word counts, sorted by author.
pub struct Corpus {
    pub entries: Vec<(Vec<u8>, WordCount)>,
}

impl View for Corpus {
    type V = Map<Seq<u8>, Map<Seq<u8>, u64>>;

    open spec fn view(&self) -> Map<Seq<u8>, Map<Seq<u8>, u64>> {
        assoc_view(self.entries@, Map::empty())
    }
}

impl Corpus {
    /// Entries stand in strictly ascending author order, each holding a
    /// well-formed word count.
    pub open spec fn wf(&self) -> bool {
        &&& sorted_entries(self.entries@)
        &&& forall|i: int| 0 <= i < self.entries@.len() ==> (#[trigger] self.entries@[i].1).wf()
    }

    /// The entries with keys and values read as sequences: what the codec
    /// writes, in this order.
    pub open spec fn model(&self) -> Seq<(Seq<u8>, Seq<(Seq<u8>, u64)>)> {
        self.entries@.map_values(|e: (Vec<u8>, WordCount)| (e.0@, e.1.model()))
    }

    pub fn new() -> (r: Corpus)
        ensures
            r.wf(),
            r@ == Map::<Seq<u8>, Map<Seq<u8>, u64>>::empty(),
            r.model() == Seq::<(Seq<u8>, Seq<(Seq<u8>, u64)>)>::empty(),
    {
        let r = Corpus { entries: Vec::new() };
        proof {
            assert(r@ =~= Map::<Seq<u8>, Map<Seq<u8>, u64>>::empty());
            assert(r.model() =~= Seq::<(Seq<u8>, Seq<(Seq<u8>, u64)>)>::empty());
        }
        r
    }

    /// The count recorded for author `k`, with absent authors read as empty.
    pub proof fn lemma_view_get(&self, k: Seq<u8>)
        ensures
            self@.contains_key(k) <==> seq_has_key(self.entries@, k),
            get_wc(self@, k) == match seq_lookup(self.entries@, k) {
                Some(v) => v,
                None => Map::<Seq<u8>, u64>::empty(),
            },
    {
        lemma_lookup_has::<WordCount>(self.entries@, k);
    }

    /// Folds the counts `wc` into author `author`'s frequencies.
    pub fn add_counts(&mut self, author: Vec<u8>, wc: WordCount)
        requires
            old(self).wf(),
            wc.wf(),
        ensures
            final(self).wf(),
            final(self)@ == corpus_add(old(self)@, author@, wc@),
    {
        let ghost s0 = self.entries@;
        let ghost m0 = old(self)@;
        let j = find_slot(&self.entries, &author);
        proof {
            lemma_sorted_distinct::<WordCount>(s0);
        }
        if j < self.entries.len() {
            match crate::bytes::lex_cmp(&self.entries[j].0, &author) {
                crate::bytes::Cmp::Eq => {
                    let mut e = self.entries.remove(j);
                    e.1.merge_from(&wc);
                    let ghost v2 = e.1@;
                    self.entries.insert(j, e);
                    proof {
                        let s2 = self.entries@;
                        let ghost e2 = s2[j as int];
                        assert(s2 =~= s0.update(j as int, e2));
                        assert(e2.0@ == s0[j as int].0@);
                        lemma_assoc_view_update::<WordCount>(
                            s0,
                            j as int,
                            e2,
                            Map::<Seq<u8>, u64>::empty(),
                        );
                        lemma_lookup_at::<WordCount>(s0, j as int);
                        lemma_lookup_has::<WordCount>(s0, author@);
                        assert(get_wc(m0, author@) == s0[j as int].1@);
                        assert(e2.1@ == wc_merge(s0[j as int].1@, wc@));
                    }
                    return ;
                },
                _ => {},
            }
        }
        proof {
            if j < self.entries@.len() {
                crate::bytes::lemma_lex_total(self.entries@[j as int].0@, author@);
            }
        }
        self.entries.insert(j, (author, wc));
        proof {
            let s2 = self.entries@;
            let ghost e2 = s2[j as int];
            assert(s2 =~= s0.insert(j as int, e2));
            lemma_assoc_view_insert::<WordCount>(s0, j as int, e2, Map::<Seq<u8>, u64>::empty());
            assert(!seq_has_key(s0, e2.0@)) by {
                if seq_has_key(s0, e2.0@) {
                    let i = choose|i: int| 0 <= i < s0.len() && s0[i].0@ == e2.0@;
                    if i < j {
                        crate::bytes::lemma_lex_asym(s0[i].0@, e2.0@);
                    } else {
                        crate::bytes::lemma_lex_asym(e2.0@, s0[i].0@);
                        crate::bytes::lemma_lex_trans(e2.0@, s0[j as int].0@, s0[i].0@);
                        if i == j {
                            crate::bytes::lemma_lex_asym(e2.0@, s0[i].0@);
                        }
                    }
                }
            }
            lemma_lookup_has::<WordCount>(s0, e2.0@);
            assert(get_wc(m0, e2.0@) == Map::<Seq<u8>, u64>::empty());
            lemma_wc_merge_empty_left(e2.1@);
            assert(final(self)@ == corpus_add(m0, author@, wc@));
        }
    }

    /// Merges every author's counts of `other` into this corpus.
    pub fn merge_from(&mut self, other: &Corpus)
        requires
            old(self).wf(),
            other.wf(),
        ensures
            final(self).wf(),
            final(self)@ == corpus_merge(old(self)@, other@),
    {
        let ghost m0 = old(self)@;
        let ghost os = other.entries@;
        let n = other.entries.len();
        let mut i: usize = 0;
        while i < n
            invariant
                self.wf(),
                other.wf(),
                n == os.len(),
                os == other.entries@,
                0 <= i <= n,
                forall|k: Seq<u8>| #[trigger]
                    get_wc(self@, k) == if seq_has_key(os.take(i as int), k) {
                        wc_merge(get_wc(m0, k), get_wc(other@, k))
                    } else {
                        get_wc(m0, k)
                    },
                forall|k: Seq<u8>| #[trigger]
                    self@.contains_key(k) <==> (m0.contains_key(k) || seq_has_key(
                        os.take(i as int),
                        k,
                    )),
            decreases n - i,
        {
            let ghost mpre = self@;
            let author = crate::bytes::copy_bytes(&other.entries[i].0);
            let wc = other.entries[i].1.duplicate();
            proof {
                lemma_sorted_distinct::<WordCount>(os);
                lemma_lookup_at::<WordCount>(os, i as int);
                other.lemma_view_get(author@);
                assert(get_wc(other@, author@) == os[i as int].1@);
                assert(!seq_has_key(os.take(i as int), author@)) by {
                    if seq_has_key(os.take(i as int), author@) {
                        let ii = choose|ii: int| 0 <= ii < i && os.take(i as int)[ii].0@ == author@;
                        assert(os[ii].0@ == os[i as int].0@);
                    }
                }
            }
            self.add_counts(author, wc);
            proof {
                assert forall|k: Seq<u8>|
                    seq_has_key(os.take(i as int + 1), k) == (seq_has_key(os.take(i as int), k)
                        || k == os[i as int].0@) by {
                    let t1 = os.take(i as int + 1);
                    let t0 = os.take(i as int);
                    if seq_has_key(t1, k) {
                        let ii = choose|ii: int| 0 <= ii < t1.len() && t1[ii].0@ == k;
                        if ii < i {
                            assert(t0[ii].0@ == k);
                        }
                    }
                    if seq_has_key(t0, k) {
                        let ii = choose|ii: int| 0 <= ii < t0.len() && t0[ii].0@ == k;
                        assert(t1[ii].0@ == k);
                    }
                    assert(t1[i as int].0@ == os[i as int].0@);
                }
                assert forall|k: Seq<u8>| #[trigger]
                    get_wc(self@, k) == if seq_has_key(os.take(i as int + 1), k) {
                        wc_merge(get_wc(m0, k), get_wc(other@, k))
                    } else {
                        get_wc(m0, k)
                    } by {
                    if k == author@ {
                        assert(get_wc(self@, k) == wc_merge(get_wc(mpre, k), wc@));
                        assert(get_wc(mpre, k) == get_wc(m0, k));
                        assert(wc@ == get_wc(other@, k));
                    } else {
                        assert(get_wc(self@, k) == get_wc(mpre, k));
                    }
                }
            }
            i = i + 1;
        }
        proof {
            assert(os.take(n as int) =~= os);
            assert forall|k: Seq<u8>| #[trigger]
                other@.contains_key(k) == seq_has_key(os, k) by {
                other.lemma_view_get(k);
            }
            let mm = corpus_merge(m0, other@);
            assert forall|k: Seq<u8>| #[trigger] self@.contains_key(k) == mm.contains_key(k) by {
                assert(self@.contains_key(k) <==> (m0.contains_key(k) || seq_has_key(
                    os.take(n as int),
                    k,
                )));
                assert(other@.contains_key(k) == seq_has_key(os, k));
            }
            assert forall|k: Seq<u8>| #[trigger] self@.contains_key(k) implies self@[k]
                == mm[k] by {
                assert(get_wc(self@, k) == if seq_has_key(os.take(n as int), k) {
                    wc_merge(get_wc(m0, k), get_wc(other@, k))
                } else {
                    get_wc(m0, k)
                });
                assert(other@.contains_key(k) == seq_has_key(os, k));
                if !other@.contains_key(k) {
                    lemma_wc_merge_empty_right(get_wc(m0, k));
                }
                assert(get_wc(self@, k) == self@[k]);
                assert(mm[k] == wc_merge(get_wc(m0, k), get_wc(other@, k)));
            }
            assert(self@ =~= mm);
        }
    }

    /// How many authors the corpus holds.
    pub fn author_len(&self) -> (n: usize)
        ensures
            n == self.entries@.len(),
            n == self.model().len(),
    {
        self.entries.len()
    }
}

/// Merging empty frequencies on the left changes nothing.
pub proof fn lemma_wc_merge_empty_left(w: Map<Seq<u8>, u64>)
    ensures
        wc_merge(Map::empty(), w) == w,
{
    assert(wc_merge(Map::empty(), w) =~= w);
}

/// Merging empty frequencies on the right changes nothing.
pub proof fn lemma_wc_merge_empty_right(w: Map<Seq<u8>, u64>)
    ensures
        wc_merge(w, Map::empty()) == w,
{
    assert(wc_merge(w, Map::empty()) =~= w);
}

/// Word-count merging is commutative.
pub proof fn lemma_wc_merge_comm(a: Map<Seq<u8>, u64>, b: Map<Seq<u8>, u64>)
    ensures
        wc_merge(a, b) == wc_merge(b, a),
{
    assert(wc_merge(a, b) =~= wc_merge(b, a));
}

/// Word-count merging is associative.
pub proof fn lemma_wc_merge_assoc(a: Map<Seq<u8>, u64>, b: Map<Seq<u8>, u64>, c: Map<Seq<u8>, u64>)
    ensures
        wc_merge(wc_merge(a, b), c) == wc_merge(a, wc_merge(b, c)),
{
    assert(wc_merge(wc_merge(a, b), c) =~= wc_merge(a, wc_merge(b, c))) by {
        assert forall|k: Seq<u8>|
            sat_add(sat_add(get0(a, k), get0(b, k)), get0(c, k)) == sat_add(
                get0(a, k),
                sat_add(get0(b, k), get0(c, k)),
            ) by {}
    }
}

/// Corpus merging is commutative: fan-out order across workers cannot change
/// the result.
pub proof fn lemma_corpus_merge_comm(
    a: Map<Seq<u8>, Map<Seq<u8>, u64>>,
    b: Map<Seq<u8>, Map<Seq<u8>, u64>>,
)
    ensures
        corpus_merge(a, b) == corpus_merge(b, a),
{
    assert(corpus_merge(a, b) =~= corpus_merge(b, a)) by {
        assert forall|k: Seq<u8>|
            #![trigger corpus_merge(a, b).contains_key(k)]
            wc_merge(get_wc(a, k), get_wc(b, k)) == wc_merge(get_wc(b, k), get_wc(a, k)) by {
            lemma_wc_merge_comm(get_wc(a, k), get_wc(b, k));
        }
    }
}

/// Corpus merging is associative: how batch results are reduced pairwise
/// cannot change the result.
pub proof fn lemma_corpus_merge_assoc(
    a: Map<Seq<u8>, Map<Seq<u8>, u64>>,
    b: Map<Seq<u8>, Map<Seq<u8>, u64>>,
    c: Map<Seq<u8>, Map<Seq<u8>, u64>>,
)
    ensures
        corpus_merge(corpus_merge(a, b), c) == corpus_merge(a, corpus_merge(b, c)),
{
    let l = corpus_merge(corpus_merge(a, b), c);
    let r = corpus_merge(a, corpus_merge(b, c));
    assert(l =~= r) by {
        assert forall|k: Seq<u8>| #![trigger l.contains_key(k)] true ==> get_wc(l, k) == get_wc(
            r,
            k,
        ) && (l.contains_key(k) == r.contains_key(k)) by {
            lemma_wc_merge_assoc(get_wc(a, k), get_wc(b, k), get_wc(c, k));
            if a.contains_key(k) || b.contains_key(k) || c.contains_key(k) {
                assert(get_wc(l, k) == wc_merge(wc_merge(get_wc(a, k), get_wc(b, k)), get_wc(c, k)));
                assert(get_wc(r, k) == wc_merge(get_wc(a, k), wc_merge(get_wc(b, k), get_wc(c, k))));
            }
        }
        assert forall|k: Seq<u8>| l.contains_key(k) implies l[k] == r[k] by {
            assert(get_wc(l, k) == get_wc(r, k));
        }
    }
}

/// Merging the empty corpus changes nothing.
pub proof fn lemma_corpus_merge_empty_left(a: Map<Seq<u8>, Map<Seq<u8>, u64>>)
    ensures
        corpus_merge(Map::empty(), a) == a,
{
    assert(corpus_merge(Map::empty(), a) =~= a) by {
        assert forall|k: Seq<u8>| a.contains_key(k) implies corpus_merge(Map::empty(), a)[k]
            == a[k] by {
            lemma_wc_merge_empty_left(get_wc(a, k));
        }
    }
}

/// Folding one record into a corpus is merging with that record's
/// one-author corpus.
pub proof fn lemma_corpus_add_is_merge(
    m: Map<Seq<u8>, Map<Seq<u8>, u64>>,
    k: Seq<u8>,
    w: Map<Seq<u8>, u64>,
)
    ensures
        corpus_add(m, k, w) == corpus_merge(m, Map::empty().insert(k, w)),
{
    let s = Map::<Seq<u8>, Map<Seq<u8>, u64>>::empty().insert(k, w);
    assert(corpus_add(m, k, w) =~= corpus_merge(m, s)) by {
        assert forall|kk: Seq<u8>| corpus_merge(m, s).contains_key(kk) && kk != k implies
            corpus_merge(m, s)[kk] == m[kk] by {
            assert(get_wc(s, kk) == Map::<Seq<u8>, u64>::empty());
            lemma_wc_merge_empty_right(get_wc(m, kk));
        }
    }
}

/// The records of one file, each already tokenized: an author (bytes) with
/// the word counts of one body.
pub open spec fn corpus_of_records(
    rs: Seq<(Seq<u8>, Map<Seq<u8>, u64>)>,
) -> Map<Seq<u8>, Map<Seq<u8>, u64>>
    decreases rs.len(),
{
    if rs.len() == 0 {
        Map::empty()
    } else {
        corpus_add(corpus_of_records(rs.drop_last()), rs.last().0, rs.last().1)
    }
}

/// Splitting a record sequence anywhere and merging the two parts' corpora
/// rebuilds the whole sequence's corpus.
pub proof fn lemma_records_concat(
    r1: Seq<(Seq<u8>, Map<Seq<u8>, u64>)>,
    r2: Seq<(Seq<u8>, Map<Seq<u8>, u64>)>,
)
    ensures
        corpus_of_records(r1 + r2) == corpus_merge(corpus_of_records(r1), corpus_of_records(r2)),
    decreases r2.len(),
{
    if r2.len() == 0 {
        assert(r1 + r2 =~= r1);
        lemma_corpus_merge_empty_right_law(corpus_of_records(r1));
    } else {
        let r2p = r2.drop_last();
        assert((r1 + r2).drop_last() =~= r1 + r2p);
        assert((r1 + r2).last() == r2.last());
        lemma_records_concat(r1, r2p);
        let a = corpus_of_records(r1);
        let b = corpus_of_records(r2p);
        let e = r2.last();
        let s = Map::<Seq<u8>, Map<Seq<u8>, u64>>::empty().insert(e.0, e.1);
        lemma_corpus_add_is_merge(corpus_merge(a, b), e.0, e.1);
        lemma_corpus_merge_assoc(a, b, s);
        lemma_corpus_add_is_merge(b, e.0, e.1);
    }
}

/// Merging the empty corpus on the right changes nothing.
pub proof fn lemma_corpus_merge_empty_right_law(a: Map<Seq<u8>, Map<Seq<u8>, u64>>)
    ensures
        corpus_merge(a, Map::empty()) == a,
{
    lemma_corpus_merge_comm(a, Map::empty());
    lemma_corpus_merge_empty_left(a);
}

/// The corpora of a sequence of batches, merged in order.
pub open spec fn merged_batches(
    bs: Seq<Seq<(Seq<u8>, Map<Seq<u8>, u64>)>>,
) -> Map<Seq<u8>, Map<Seq<u8>, u64>>
    decreases bs.len(),
{
    if bs.len() == 0 {
        Map::empty()
    } else {
        corpus_merge(merged_batches(bs.drop_last()), corpus_of_records(bs.last()))
    }
}

/// The records of all batches, joined in order.
pub open spec fn concat_records(
    bs: Seq<Seq<(Seq<u8>, Map<Seq<u8>, u64>)>>,
) -> Seq<(Seq<u8>, Map<Seq<u8>, u64>)>
    decreases bs.len(),
{
    if bs.len() == 0 {
        Seq::empty()
    } else {
        concat_records(bs.drop_last()) + bs.last()
    }
}

/// Merge invariance: however a set of records is partitioned into batches,
/// merging the per-batch corpora in order yields the corpus of the records
/// themselves. Together with commutativity and associativity of
/// `corpus_merge`, the result is independent of batch sizes, worker count
/// and reduction order.
pub proof fn lemma_merge_invariance(bs: Seq<Seq<(Seq<u8>, Map<Seq<u8>, u64>)>>)
    ensures
        merged_batches(bs) == corpus_of_records(concat_records(bs)),
    decreases bs.len(),
{
    if bs.len() > 0 {
        lemma_merge_invariance(bs.drop_last());
        lemma_records_concat(concat_records(bs.drop_last()), bs.last());
    }
}

} // verus!
