//! Per-author word frequencies: a map from word (raw bytes) to a 64-bit
//! saturating counter, held in strictly ascending lexicographic word order.

use vstd::prelude::*;

use crate::assoc::{
    find_slot, lemma_lookup_agree, lemma_lookup_at, lemma_lookup_has, lemma_lookup_insert_other,
    lemma_sorted_distinct, lemma_sorted_insert, seq_has_key, seq_lookup, sorted_entries,
};
use crate::bytes::{lex_lt, lemma_lex_asym};

verus! {

/// Addition that sticks at the counter's ceiling instead of wrapping.
pub open spec fn sat_add(a: u64, b: u64) -> u64 {
    if a + b > u64::MAX {
        u64::MAX
    } else {
        (a + b) as u64
    }
}

/// The count under key `k`, taking an absent key as zero.
pub open spec fn get0(m: Map<Seq<u8>, u64>, k: Seq<u8>) -> u64 {
    if m.contains_key(k) {
        m[k]
    } else {
        0
    }
}

/// `m` with `n` more counted under `k`.
pub open spec fn wc_add(m: Map<Seq<u8>, u64>, k: Seq<u8>, n: u64) -> Map<Seq<u8>, u64> {
    m.insert(k, sat_add(get0(m, k), n))
}

/// The key-wise sum of two frequency maps.
pub open spec fn wc_merge(a: Map<Seq<u8>, u64>, b: Map<Seq<u8>, u64>) -> Map<Seq<u8>, u64> {
    Map::new(
        |k: Seq<u8>| a.contains_key(k) || b.contains_key(k),
        |k: Seq<u8>| sat_add(get0(a, k), get0(b, k)),
    )
}

/// Word frequencies for one author: each word's bytes paired with its count,
/// sorted by word.
pub struct WordCount {
    pub entries: Vec<(Vec<u8>, u64)>,
}

impl View for WordCount {
    type V = Map<Seq<u8>, u64>;

    open spec fn view(&self) -> Map<Seq<u8>, u64> {
        Map::new(
            |k: Seq<u8>| seq_has_key(self.entries@, k),
            |k: Seq<u8>|
                match seq_lookup(self.entries@, k) {
                    Some(v) => v,
                    None => 0,
                },
        )
    }
}

impl WordCount {
    /// Entries stand in strictly ascending word order.
    pub open spec fn wf(&self) -> bool {
        sorted_entries(self.entries@)
    }

    /// The entries with their keys read as byte sequences: what the codec
    /// writes, in this order.
    pub open spec fn model(&self) -> Seq<(Seq<u8>, u64)> {
        self.entries@.map_values(|e: (Vec<u8>, u64)| (e.0@, e.1))
    }

    /// The count recorded for `k`, with absent keys read as zero.
    pub proof fn lemma_view_get(&self, k: Seq<u8>)
        ensures
            get0(self@, k) == match seq_lookup(self.entries@, k) {
                Some(v) => v,
                None => 0u64,
            },
            self@.contains_key(k) <==> seq_has_key(self.entries@, k),
    {
        lemma_lookup_has::<u64>(self.entries@, k);
    }

    pub fn new() -> (r: WordCount)
        ensures
            r.wf(),
            r@ == Map::<Seq<u8>, u64>::empty(),
            r.model() == Seq::<(Seq<u8>, u64)>::empty(),
    {
        let r = WordCount { entries: Vec::new() };
        proof {
            assert(r@ =~= Map::<Seq<u8>, u64>::empty());
            assert(r.model() =~= Seq::<(Seq<u8>, u64)>::empty());
        }
        r
    }

    /// Counts `n` more occurrences of `word`.
    pub fn add_count(&mut self, word: Vec<u8>, n: u64)
        requires
            old(self).wf(),
        ensures
            final(self).wf(),
            final(self)@ == wc_add(old(self)@, word@, n),
    {
        let ghost s0 = self.entries@;
        let j = find_slot(&self.entries, &word);
        proof {
            lemma_sorted_distinct::<u64>(s0);
        }
        if j < self.entries.len() {
            match crate::bytes::lex_cmp(&self.entries[j].0, &word) {
                crate::bytes::Cmp::Eq => {
                    let e = self.entries.remove(j);
                    let v2 = e.1.saturating_add(n);
                    self.entries.insert(j, (e.0, v2));
                    proof {
                        let s2 = self.entries@;
                        assert(s2 =~= s0.update(j as int, (e.0, v2)));
                        self.lemma_update_eq(s0, j as int, word@, v2, n);
                    }
                    return ;
                },
                _ => {},
            }
        }
        proof {
            if j < self.entries@.len() {
                crate::bytes::lemma_lex_total(self.entries@[j as int].0@, word@);
            }
        }
        self.entries.insert(j, (word, n));
        proof {
            let s2 = self.entries@;
            let e = s2[j as int];
            assert(s2 =~= s0.insert(j as int, e));
            lemma_sorted_insert(s0, j as int, e);
            lemma_lookup_has::<u64>(s0, e.0@);
            if seq_has_key(s0, e.0@) {
                let i = choose|i: int| 0 <= i < s0.len() && s0[i].0@ == e.0@;
                if i < j {
                    lemma_lex_asym(s0[i].0@, e.0@);
                }
            }
            self.lemma_insert_new(s0, j as int, e);
        }
    }

    /// After replacing entry `j`'s count, the map is the old map with the
    /// new count under that entry's key.
    proof fn lemma_update_eq(&self, s0: Seq<(Vec<u8>, u64)>, j: int, k: Seq<u8>, v2: u64, n: u64)
        requires
            sorted_entries(s0),
            0 <= j < s0.len(),
            s0[j].0@ == k,
            self.entries@ =~= s0.update(j, (s0[j].0, v2)),
            forall|i: int, jj: int|
                0 <= i < s0.len() && 0 <= jj < s0.len() && i != jj ==> #[trigger] s0[i].0@
                    != #[trigger] s0[jj].0@,
            v2 == sat_add(s0[j].1, n),
        ensures
            self.wf(),
            self@ == wc_add(
                Map::new(
                    |kk: Seq<u8>| seq_has_key(s0, kk),
                    |kk: Seq<u8>|
                        match seq_lookup(s0, kk) {
                            Some(v) => v,
                            None => 0u64,
                        },
                ),
                k,
                n,
            ),
    {
        let s2 = self.entries@;
        let m0 = Map::new(
            |kk: Seq<u8>| seq_has_key(s0, kk),
            |kk: Seq<u8>|
                match seq_lookup(s0, kk) {
                    Some(v) => v,
                    None => 0u64,
                },
        );
        assert(sorted_entries(s2)) by {
            assert forall|a: int, b: int| 0 <= a < b < s2.len() implies #[trigger] lex_lt(
                s2[a].0@,
                s2[b].0@,
            ) by {
                assert(lex_lt(s0[a].0@, s0[b].0@));
            }
        }
        lemma_lookup_at::<u64>(s0, j);
        lemma_lookup_at::<u64>(s2, j);
        assert(seq_lookup(s2, k) == Some(v2));
        assert(get0(m0, k) == s0[j].1) by {
            lemma_lookup_has::<u64>(s0, k);
        }
        assert forall|kk: Seq<u8>| kk != k implies seq_lookup(s2, kk) == seq_lookup(s0, kk) by {
            lemma_lookup_agree::<u64>(s0, s2, kk);
        }
        assert(self@ =~= wc_add(m0, k, n)) by {
            assert forall|kk: Seq<u8>| seq_has_key(s2, kk) == (seq_has_key(s0, kk) || kk
                == k) by {
                if seq_has_key(s2, kk) {
                    let i = choose|i: int| 0 <= i < s2.len() && s2[i].0@ == kk;
                    assert(s0[i].0@ == kk);
                }
                if seq_has_key(s0, kk) {
                    let i = choose|i: int| 0 <= i < s0.len() && s0[i].0@ == kk;
                    assert(s2[i].0@ == kk);
                }
                assert(s2[j].0@ == k);
            }
            lemma_lookup_has::<u64>(s2, k);
        }
    }

    /// After inserting a fresh entry at `j`, the map is the old map with that
    /// entry's count under its key.
    proof fn lemma_insert_new(&self, s0: Seq<(Vec<u8>, u64)>, j: int, e: (Vec<u8>, u64))
        requires
            0 <= j <= s0.len(),
            self.entries@ =~= s0.insert(j, e),
            sorted_entries(self.entries@),
            !seq_has_key(s0, e.0@),
        ensures
            self.wf(),
            self@ == wc_add(
                Map::new(
                    |kk: Seq<u8>| seq_has_key(s0, kk),
                    |kk: Seq<u8>|
                        match seq_lookup(s0, kk) {
                            Some(v) => v,
                            None => 0u64,
                        },
                ),
                e.0@,
                e.1,
            ),
    {
        let s2 = self.entries@;
        let m0 = Map::new(
            |kk: Seq<u8>| seq_has_key(s0, kk),
            |kk: Seq<u8>|
                match seq_lookup(s0, kk) {
                    Some(v) => v,
                    None => 0u64,
                },
        );
        lemma_lookup_has::<u64>(s0, e.0@);
        assert(get0(m0, e.0@) == 0);
        lemma_sorted_distinct::<u64>(s2);
        lemma_lookup_at::<u64>(s2, j);
        assert(s2[j] == e);
        assert forall|kk: Seq<u8>| kk != e.0@ implies seq_lookup(s2, kk) == seq_lookup(s0, kk) by {
            lemma_lookup_insert_other::<u64>(s0, j, e, kk);
        }
        assert(self@ =~= wc_add(m0, e.0@, e.1)) by {
            assert forall|kk: Seq<u8>| seq_has_key(s2, kk) == (seq_has_key(s0, kk) || kk
                == e.0@) by {
                if seq_has_key(s2, kk) && kk != e.0@ {
                    let i = choose|i: int| 0 <= i < s2.len() && s2[i].0@ == kk;
                    if i < j {
                        assert(s0[i].0@ == kk);
                    } else {
                        assert(s0[i - 1].0@ == kk);
                    }
                }
                if seq_has_key(s0, kk) {
                    let i = choose|i: int| 0 <= i < s0.len() && s0[i].0@ == kk;
                    if i < j {
                        assert(s2[i].0@ == kk);
                    } else {
                        assert(s2[i + 1].0@ == kk);
                    }
                }
                assert(s2[j].0@ == e.0@);
            }
            lemma_lookup_has::<u64>(s2, e.0@);
            assert forall|kk: Seq<u8>|
                seq_has_key(s2, kk) && kk != e.0@ implies get0(self@, kk) == get0(m0, kk) by {
                lemma_lookup_has::<u64>(s2, kk);
                lemma_lookup_has::<u64>(s0, kk);
            }
        }
    }

    /// Adds every count of `other` into this map, key-wise and saturating.
    pub fn merge_from(&mut self, other: &WordCount)
        requires
            old(self).wf(),
            other.wf(),
        ensures
            final(self).wf(),
            final(self)@ == wc_merge(old(self)@, other@),
    {
        let ghost m0 = old(self)@;
        let ghost os = other.entries@;
        let n = other.entries.len();
        let mut i: usize = 0;
        while i < n
            invariant
                self.wf(),
                other.wf(),
                n == os.len(),
                os == other.entries@,
                0 <= i <= n,
                forall|k: Seq<u8>| #[trigger]
                    get0(self@, k) == if seq_has_key(os.take(i as int), k) {
                        sat_add(get0(m0, k), get0(other@, k))
                    } else {
                        get0(m0, k)
                    },
                forall|k: Seq<u8>| #[trigger]
                    self@.contains_key(k) <==> (m0.contains_key(k) || seq_has_key(
                        os.take(i as int),
                        k,
                    )),
            decreases n - i,
        {
            let ghost mpre = self@;
            let word = crate::bytes::copy_bytes(&other.entries[i].0);
            let cnt = other.entries[i].1;
            proof {
                lemma_sorted_distinct::<u64>(os);
                lemma_lookup_at::<u64>(os, i as int);
                other.lemma_view_get(word@);
                assert(get0(other@, word@) == cnt);
                assert(!seq_has_key(os.take(i as int), word@)) by {
                    if seq_has_key(os.take(i as int), word@) {
                        let ii = choose|ii: int|
                            0 <= ii < i && os.take(i as int)[ii].0@ == word@;
                        assert(os[ii].0@ == os[i as int].0@);
                    }
                }
            }
            self.add_count(word, cnt);
            proof {
                assert(os.take(i + 1 as int) =~= os.take(i as int).push(os[i as int]));
                assert forall|k: Seq<u8>|
                    seq_has_key(os.take(i + 1 as int), k) == (seq_has_key(os.take(i as int), k)
                        || k == os[i as int].0@) by {
                    let t1 = os.take(i + 1 as int);
                    let t0 = os.take(i as int);
                    if seq_has_key(t1, k) {
                        let ii = choose|ii: int| 0 <= ii < t1.len() && t1[ii].0@ == k;
                        if ii < i {
                            assert(t0[ii].0@ == k);
                        }
                    }
                    if seq_has_key(t0, k) {
                        let ii = choose|ii: int| 0 <= ii < t0.len() && t0[ii].0@ == k;
                        assert(t1[ii].0@ == k);
                    }
                    assert(t1[i as int].0@ == os[i as int].0@);
                }
                assert forall|k: Seq<u8>| #[trigger]
                    get0(self@, k) == if seq_has_key(os.take(i + 1 as int), k) {
                        sat_add(get0(m0, k), get0(other@, k))
                    } else {
                        get0(m0, k)
                    } by {
                    if k == word@ {
                        assert(get0(self@, k) == sat_add(get0(mpre, k), cnt));
                        assert(get0(mpre, k) == get0(m0, k));
                    } else {
                        assert(get0(self@, k) == get0(mpre, k));
                    }
                }
            }
            i = i + 1;
        }
        proof {
            assert(os.take(n as int) =~= os);
            assert forall|k: Seq<u8>| #[trigger]
                other@.contains_key(k) == seq_has_key(os, k) by {
                other.lemma_view_get(k);
            }
            assert(self@ =~= wc_merge(m0, other@)) by {
                assert forall|k: Seq<u8>| seq_has_key(os, k) implies get0(self@, k) == sat_add(
                    get0(m0, k),
                    get0(other@, k),
                ) by {
                    assert(get0(self@, k) == if seq_has_key(os.take(n as int), k) {
                        sat_add(get0(m0, k), get0(other@, k))
                    } else {
                        get0(m0, k)
                    });
                }
                assert forall|k: Seq<u8>| !seq_has_key(os, k) implies get0(self@, k) == get0(
                    m0,
                    k,
                ) by {
                    assert(get0(self@, k) == if seq_has_key(os.take(n as int), k) {
                        sat_add(get0(m0, k), get0(other@, k))
                    } else {
                        get0(m0, k)
                    });
                }
                assert forall|k: Seq<u8>| wc_merge(m0, other@).contains_key(k) implies get0(
                    self@,
                    k,
                ) == wc_merge(m0, other@)[k] by {
                    if other@.contains_key(k) {
                        assert(sat_add(get0(m0, k), get0(other@, k)) == get0(self@, k));
                    } else {
                        assert(get0(other@, k) == 0);
                    }
                }
            }
        }
    }

    /// A copy holding the same words and counts.
    pub fn duplicate(&self) -> (r: WordCount)
        requires
            self.wf(),
        ensures
            r.wf(),
            r@ == self@,
            r.model() == self.model(),
    {
        let n = self.entries.len();
        let mut out: Vec<(Vec<u8>, u64)> = Vec::new();
        let mut i: usize = 0;
        while i < n
            invariant
                0 <= i <= n,
                n == self.entries@.len(),
                out@.len() == i,
                forall|m: int|
                    0 <= m < i ==> #[trigger] out@[m].0@ == self.entries@[m].0@ && out@[m].1
                        == self.entries@[m].1,
            decreases n - i,
        {
            let key = crate::bytes::copy_bytes(&self.entries[i].0);
            let val = self.entries[i].1;
            out.push((key, val));
            i = i + 1;
        }
        let r = WordCount { entries: out };
        proof {
            assert(sorted_entries(r.entries@)) by {
                assert forall|a: int, b: int| 0 <= a < b < r.entries@.len() implies #[trigger]
                    lex_lt(r.entries@[a].0@, r.entries@[b].0@) by {
                    assert(lex_lt(self.entries@[a].0@, self.entries@[b].0@));
                }
            }
            assert(r.model() =~= self.model());
            assert(r@ =~= self@) by {
                assert forall|k: Seq<u8>| seq_has_key(r.entries@, k) == seq_has_key(
                    self.entries@,
                    k,
                ) by {
                    if seq_has_key(r.entries@, k) {
                        let ii = choose|ii: int|
                            0 <= ii < r.entries@.len() && r.entries@[ii].0@ == k;
                        assert(self.entries@[ii].0@ == k);
                    }
                    if seq_has_key(self.entries@, k) {
                        let ii = choose|ii: int|
                            0 <= ii < self.entries@.len() && self.entries@[ii].0@ == k;
                        assert(r.entries@[ii].0@ == k);
                    }
                }
                assert forall|k: Seq<u8>|
                    seq_lookup(r.entries@, k) == seq_lookup(self.entries@, k) by {
                    assert forall|m: int| 0 <= m < self.entries@.len() implies #[trigger]
                        self.entries@[m].0@ == r.entries@[m].0@ by {
                        assert(out@[m].0@ == self.entries@[m].0@);
                    }
                    assert forall|m: int|
                        0 <= m < self.entries@.len() implies #[trigger] self.entries@[m].1@
                        == r.entries@[m].1@ by {
                        assert(out@[m].0@ == self.entries@[m].0@);
                        assert(out@[m].1 == self.entries@[m].1);
                    }
                    lemma_lookup_agree::<u64>(self.entries@, r.entries@, k);
                }
            }
        }
        r
    }

    /// How many distinct words are counted.
    pub fn word_count_len(&self) -> (n: usize)
        ensures
            n == self.entries@.len(),
            n == self.model().len(),
    {
        self.entries.len()
    }
}

} // verus!
