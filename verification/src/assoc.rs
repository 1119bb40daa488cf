//! Sorted association sequences: the shared machinery behind both levels of
//! the frequency map. Entries are `(key bytes, value)` pairs held in strictly
//! ascending lexicographic key order, so iteration order is deterministic and
//! each key appears at most once.

use vstd::prelude::*;

use crate::bytes::{lex_lt, lemma_lex_asym, lemma_lex_trans};

verus! {

/// Whether some entry of `s` carries the key `k`.
pub open spec fn seq_has_key<V>(s: Seq<(Vec<u8>, V)>, k: Seq<u8>) -> bool {
    exists|i: int| 0 <= i < s.len() && #[trigger] s[i].0@ == k
}

/// The value (as its view) of the first entry of `s` whose key is `k`.
pub open spec fn seq_lookup<V: View>(s: Seq<(Vec<u8>, V)>, k: Seq<u8>) -> Option<V::V>
    decreases s.len(),
{
    if s.len() == 0 {
        None
    } else if s[0].0@ == k {
        Some(s[0].1@)
    } else {
        seq_lookup(s.drop_first(), k)
    }
}

/// Keys strictly ascending in lexicographic order.
pub open spec fn sorted_entries<V>(s: Seq<(Vec<u8>, V)>) -> bool {
    forall|i: int, j: int| 0 <= i < j < s.len() ==> #[trigger] lex_lt(s[i].0@, s[j].0@)
}

/// A lookup succeeds exactly when the key is present.
pub proof fn lemma_lookup_has<V: View>(s: Seq<(Vec<u8>, V)>, k: Seq<u8>)
    ensures
        seq_lookup(s, k) is Some <==> seq_has_key(s, k),
    decreases s.len(),
{
    if s.len() > 0 {
        lemma_lookup_has(s.drop_first(), k);
        if s[0].0@ == k {
            assert(seq_has_key(s, k));
        } else {
            if seq_has_key(s.drop_first(), k) {
                let i = choose|i: int| 0 <= i < s.drop_first().len() && s.drop_first()[i].0@ == k;
                assert(s[i + 1].0@ == k);
            }
            if seq_has_key(s, k) {
                let i = choose|i: int| 0 <= i < s.len() && s[i].0@ == k;
                assert(i >= 1);
                assert(s.drop_first()[i - 1].0@ == k);
            }
        }
    }
}

/// A lookup passes over a prefix that does not carry the key.
pub proof fn lemma_lookup_skip<V: View>(s: Seq<(Vec<u8>, V)>, k: Seq<u8>, j: int)
    requires
        0 <= j <= s.len(),
        forall|i: int| 0 <= i < j ==> #[trigger] s[i].0@ != k,
    ensures
        seq_lookup(s, k) == seq_lookup(s.skip(j), k),
    decreases j,
{
    if j > 0 {
        lemma_lookup_skip(s.drop_first(), k, j - 1);
        assert(s.drop_first().skip(j - 1) =~= s.skip(j));
        assert(s[0].0@ != k);
    } else {
        assert(s.skip(0) =~= s);
    }
}

/// In a sequence whose earlier entries carry other keys, entry `i` is what a
/// lookup of its key finds.
pub proof fn lemma_lookup_at<V: View>(s: Seq<(Vec<u8>, V)>, i: int)
    requires
        0 <= i < s.len(),
        forall|j: int| 0 <= j < i ==> #[trigger] s[j].0@ != s[i].0@,
    ensures
        seq_lookup(s, s[i].0@) == Some(s[i].1@),
{
    lemma_lookup_skip(s, s[i].0@, i);
    assert(s.skip(i)[0] == s[i]);
    assert(s.skip(i).len() > 0);
}

/// Two sequences that agree on keys everywhere, and on values wherever the
/// key is `k`, give the same lookup of `k`.
pub proof fn lemma_lookup_agree<V: View>(s1: Seq<(Vec<u8>, V)>, s2: Seq<(Vec<u8>, V)>, k: Seq<u8>)
    requires
        s1.len() == s2.len(),
        forall|i: int| 0 <= i < s1.len() ==> #[trigger] s1[i].0@ == s2[i].0@,
        forall|i: int| 0 <= i < s1.len() && #[trigger] s1[i].0@ == k ==> s1[i].1@ == s2[i].1@,
    ensures
        seq_lookup(s1, k) == seq_lookup(s2, k),
    decreases s1.len(),
{
    if s1.len() > 0 {
        assert(s1[0].0@ == s2[0].0@);
        if s1[0].0@ != k {
            assert forall|i: int| 0 <= i < s1.drop_first().len() implies #[trigger] s1.drop_first()[i].0@
                == s2.drop_first()[i].0@ by {
                assert(s1[i + 1].0@ == s2[i + 1].0@);
            }
            assert forall|i: int|
                0 <= i < s1.drop_first().len() && #[trigger] s1.drop_first()[i].0@
                    == k implies s1.drop_first()[i].1@ == s2.drop_first()[i].1@ by {
                assert(s1[i + 1].0@ == k);
            }
            lemma_lookup_agree(s1.drop_first(), s2.drop_first(), k);
        }
    }
}

/// Inserting an entry with a different key leaves a lookup unchanged.
pub proof fn lemma_lookup_insert_other<V: View>(
    s: Seq<(Vec<u8>, V)>,
    j: int,
    e: (Vec<u8>, V),
    k: Seq<u8>,
)
    requires
        0 <= j <= s.len(),
        e.0@ != k,
    ensures
        seq_lookup(s.insert(j, e), k) == seq_lookup(s, k),
    decreases j,
{
    let s2 = s.insert(j, e);
    if j == 0 {
        assert(s2[0] == e);
        assert(s2.drop_first() =~= s);
    } else {
        assert(s2[0] == s[0]);
        assert(s2.drop_first() =~= s.drop_first().insert(j - 1, e));
        if s[0].0@ != k {
            lemma_lookup_insert_other(s.drop_first(), j - 1, e, k);
        }
    }
}

/// Inserting between the entries below and above its key keeps the order.
pub proof fn lemma_sorted_insert<V>(s: Seq<(Vec<u8>, V)>, j: int, e: (Vec<u8>, V))
    requires
        sorted_entries(s),
        0 <= j <= s.len(),
        forall|i: int| 0 <= i < j ==> lex_lt(#[trigger] s[i].0@, e.0@),
        j < s.len() ==> lex_lt(e.0@, s[j].0@),
    ensures
        sorted_entries(s.insert(j, e)),
{
    let s2 = s.insert(j, e);
    assert forall|a: int, b: int| 0 <= a < b < s2.len() implies #[trigger] lex_lt(
        s2[a].0@,
        s2[b].0@,
    ) by {
        if a < j && b < j {
            assert(lex_lt(s[a].0@, s[b].0@));
        } else if a < j && b == j {
            assert(lex_lt(s[a].0@, e.0@));
        } else if a < j && b > j {
            assert(lex_lt(s[a].0@, s[b - 1].0@));
        } else if a == j && b > j {
            if b - 1 > j {
                lemma_lex_trans(e.0@, s[j].0@, s[b - 1].0@);
            }
        } else {
            assert(lex_lt(s[a - 1].0@, s[b - 1].0@));
        }
    }
}

/// A sorted sequence never repeats a key.
pub proof fn lemma_sorted_distinct<V>(s: Seq<(Vec<u8>, V)>)
    requires
        sorted_entries(s),
    ensures
        forall|i: int, j: int|
            0 <= i < s.len() && 0 <= j < s.len() && i != j ==> #[trigger] s[i].0@ != #[trigger] s[j].0@,
{
    assert forall|i: int, j: int|
        0 <= i < s.len() && 0 <= j < s.len() && i != j implies #[trigger] s[i].0@
        != #[trigger] s[j].0@ by {
        if i < j {
            lemma_lex_asym(s[i].0@, s[j].0@);
        } else {
            lemma_lex_asym(s[j].0@, s[i].0@);
        }
    }
}

/// The map a sorted association sequence stands for, with `d` read for
/// absent keys.
pub open spec fn assoc_view<V: View>(s: Seq<(Vec<u8>, V)>, d: V::V) -> Map<Seq<u8>, V::V> {
    Map::new(
        |k: Seq<u8>| seq_has_key(s, k),
        |k: Seq<u8>|
            match seq_lookup(s, k) {
                Some(v) => v,
                None => d,
            },
    )
}

/// Replacing the value of entry `j` inserts the new value under that
/// entry's key.
pub proof fn lemma_assoc_view_update<V: View>(
    s0: Seq<(Vec<u8>, V)>,
    j: int,
    e: (Vec<u8>, V),
    d: V::V,
)
    requires
        sorted_entries(s0),
        0 <= j < s0.len(),
        e.0@ == s0[j].0@,
    ensures
        sorted_entries(s0.update(j, e)),
        assoc_view(s0.update(j, e), d) == assoc_view(s0, d).insert(e.0@, e.1@),
{
    let s2 = s0.update(j, e);
    let k = e.0@;
    lemma_sorted_distinct::<V>(s0);
    assert(sorted_entries(s2)) by {
        assert forall|a: int, b: int| 0 <= a < b < s2.len() implies #[trigger] lex_lt(
            s2[a].0@,
            s2[b].0@,
        ) by {
            assert(lex_lt(s0[a].0@, s0[b].0@));
        }
    }
    lemma_lookup_at::<V>(s2, j);
    assert(seq_lookup(s2, k) == Some(e.1@));
    assert forall|kk: Seq<u8>| kk != k implies seq_lookup(s2, kk) == seq_lookup(s0, kk) by {
        lemma_lookup_agree::<V>(s0, s2, kk);
    }
    assert(assoc_view(s2, d) =~= assoc_view(s0, d).insert(k, e.1@)) by {
        assert forall|kk: Seq<u8>| seq_has_key(s2, kk) == (seq_has_key(s0, kk) || kk == k) by {
            if seq_has_key(s2, kk) {
                let i = choose|i: int| 0 <= i < s2.len() && s2[i].0@ == kk;
                assert(s0[i].0@ == kk || kk == k);
            }
            if seq_has_key(s0, kk) {
                let i = choose|i: int| 0 <= i < s0.len() && s0[i].0@ == kk;
                if i != j {
                    assert(s2[i].0@ == kk);
                }
            }
            assert(s2[j].0@ == k);
        }
        assert forall|kk: Seq<u8>| seq_has_key(s2, kk) && kk != k implies assoc_view(s2, d)[kk]
            == assoc_view(s0, d)[kk] by {
            lemma_lookup_has::<V>(s2, kk);
            lemma_lookup_has::<V>(s0, kk);
        }
    }
}

/// Inserting a fresh entry at its slot inserts its value under its key.
pub proof fn lemma_assoc_view_insert<V: View>(
    s0: Seq<(Vec<u8>, V)>,
    j: int,
    e: (Vec<u8>, V),
    d: V::V,
)
    requires
        sorted_entries(s0),
        0 <= j <= s0.len(),
        forall|i: int| 0 <= i < j ==> lex_lt(#[trigger] s0[i].0@, e.0@),
        j < s0.len() ==> lex_lt(e.0@, s0[j].0@),
    ensures
        sorted_entries(s0.insert(j, e)),
        assoc_view(s0.insert(j, e), d) == assoc_view(s0, d).insert(e.0@, e.1@),
{
    let s2 = s0.insert(j, e);
    let k = e.0@;
    lemma_sorted_insert::<V>(s0, j, e);
    lemma_sorted_distinct::<V>(s2);
    lemma_lookup_at::<V>(s2, j);
    assert(s2[j] == e);
    assert(seq_lookup(s2, k) == Some(e.1@));
    assert forall|kk: Seq<u8>| kk != k implies seq_lookup(s2, kk) == seq_lookup(s0, kk) by {
        lemma_lookup_insert_other::<V>(s0, j, e, kk);
    }
    assert(assoc_view(s2, d) =~= assoc_view(s0, d).insert(k, e.1@)) by {
        assert forall|kk: Seq<u8>| seq_has_key(s2, kk) == (seq_has_key(s0, kk) || kk == k) by {
            if seq_has_key(s2, kk) && kk != k {
                let i = choose|i: int| 0 <= i < s2.len() && s2[i].0@ == kk;
                if i < j {
                    assert(s0[i].0@ == kk);
                } else {
                    assert(s0[i - 1].0@ == kk);
                }
            }
            if seq_has_key(s0, kk) {
                let i = choose|i: int| 0 <= i < s0.len() && s0[i].0@ == kk;
                if i < j {
                    assert(s2[i].0@ == kk);
                } else {
                    assert(s2[i + 1].0@ == kk);
                }
            }
            assert(s2[j].0@ == k);
        }
        assert forall|kk: Seq<u8>| seq_has_key(s2, kk) && kk != k implies assoc_view(s2, d)[kk]
            == assoc_view(s0, d)[kk] by {
            lemma_lookup_has::<V>(s2, kk);
            lemma_lookup_has::<V>(s0, kk);
        }
    }
}

/// Sorted association sequences are a canonical representation: two that
/// carry the same keys and values are entry-for-entry the same.
pub proof fn lemma_sorted_unique_repr<V: View>(s1: Seq<(Vec<u8>, V)>, s2: Seq<(Vec<u8>, V)>)
    requires
        sorted_entries(s1),
        sorted_entries(s2),
        forall|k: Seq<u8>| #[trigger] seq_has_key(s1, k) <==> seq_has_key(s2, k),
        forall|k: Seq<u8>| #[trigger] seq_lookup(s1, k) == #[trigger] seq_lookup(s2, k),
    ensures
        s1.len() == s2.len(),
        forall|i: int| 0 <= i < s1.len() ==> (#[trigger] s1[i]).0@ == s2[i].0@ && s1[i].1@
            == s2[i].1@,
    decreases s1.len(),
{
    lemma_sorted_distinct::<V>(s1);
    lemma_sorted_distinct::<V>(s2);
    if s1.len() == 0 {
        if s2.len() > 0 {
            assert(seq_has_key(s2, s2[0].0@));
            assert(!seq_has_key(s1, s2[0].0@));
        }
    } else if s2.len() == 0 {
        assert(seq_has_key(s1, s1[0].0@));
        assert(!seq_has_key(s2, s1[0].0@));
    } else {
        let k1 = s1[0].0@;
        let k2 = s2[0].0@;
        assert(seq_has_key(s1, k1));
        assert(seq_has_key(s2, k2));
        assert(k1 == k2) by {
            if k1 != k2 {
                assert(seq_has_key(s2, k1));
                assert(seq_has_key(s1, k2));
                let j = choose|j: int| 0 <= j < s2.len() && #[trigger] s2[j].0@ == k1;
                assert(j >= 1);
                assert(lex_lt(s2[0].0@, s2[j].0@));
                let i = choose|i: int| 0 <= i < s1.len() && #[trigger] s1[i].0@ == k2;
                assert(i >= 1);
                assert(lex_lt(s1[0].0@, s1[i].0@));
                lemma_lex_asym(k1, k2);
            }
        }
        lemma_lookup_at::<V>(s1, 0);
        lemma_lookup_at::<V>(s2, 0);
        assert(s1[0].1@ == s2[0].1@);
        let t1 = s1.drop_first();
        let t2 = s2.drop_first();
        assert(sorted_entries(t1)) by {
            assert forall|a: int, b: int| 0 <= a < b < t1.len() implies #[trigger] lex_lt(
                t1[a].0@,
                t1[b].0@,
            ) by {
                assert(lex_lt(s1[a + 1].0@, s1[b + 1].0@));
            }
        }
        assert(sorted_entries(t2)) by {
            assert forall|a: int, b: int| 0 <= a < b < t2.len() implies #[trigger] lex_lt(
                t2[a].0@,
                t2[b].0@,
            ) by {
                assert(lex_lt(s2[a + 1].0@, s2[b + 1].0@));
            }
        }
        assert forall|k: Seq<u8>| #[trigger] seq_has_key(t1, k) <==> seq_has_key(t2, k) by {
            if seq_has_key(t1, k) {
                let i = choose|i: int| 0 <= i < t1.len() && t1[i].0@ == k;
                assert(s1[i + 1].0@ == k);
                assert(k != k1);
                assert(seq_has_key(s1, k));
                assert(seq_has_key(s2, k));
                let j = choose|j: int| 0 <= j < s2.len() && s2[j].0@ == k;
                assert(j >= 1);
                assert(t2[j - 1].0@ == k);
            }
            if seq_has_key(t2, k) {
                let j = choose|j: int| 0 <= j < t2.len() && t2[j].0@ == k;
                assert(s2[j + 1].0@ == k);
                assert(k != k2);
                assert(seq_has_key(s2, k));
                assert(seq_has_key(s1, k));
                let i = choose|i: int| 0 <= i < s1.len() && s1[i].0@ == k;
                assert(i >= 1);
                assert(t1[i - 1].0@ == k);
            }
        }
        assert forall|k: Seq<u8>| #[trigger] seq_lookup(t1, k) == #[trigger] seq_lookup(
            t2,
            k,
        ) by {
            if k == k1 {
                lemma_lookup_has::<V>(t1, k);
                lemma_lookup_has::<V>(t2, k);
                if seq_has_key(t1, k) {
                    let i = choose|i: int| 0 <= i < t1.len() && t1[i].0@ == k;
                    assert(s1[i + 1].0@ == s1[0].0@);
                }
                if seq_has_key(t2, k) {
                    let j = choose|j: int| 0 <= j < t2.len() && t2[j].0@ == k;
                    assert(s2[j + 1].0@ == s2[0].0@);
                }
            } else {
                assert(seq_lookup(s1, k) == seq_lookup(t1, k));
                assert(seq_lookup(s2, k) == seq_lookup(t2, k));
            }
        }
        lemma_sorted_unique_repr::<V>(t1, t2);
        assert forall|i: int| 0 <= i < s1.len() implies (#[trigger] s1[i]).0@ == s2[i].0@
            && s1[i].1@ == s2[i].1@ by {
            if i > 0 {
                assert(0 <= i - 1 < t1.len());
                assert(t1[i - 1].0@ == t2[i - 1].0@ && t1[i - 1].1@ == t2[i - 1].1@);
                assert(t1[i - 1] == s1[i]);
                assert(t2[i - 1] == s2[i]);
            }
        }
    }
}

/// Finds the slot for `key`: the index of its entry if present, else the
/// place where an entry for it belongs.
pub fn find_slot<V>(entries: &Vec<(Vec<u8>, V)>, key: &Vec<u8>) -> (j: usize)
    ensures
        0 <= j <= entries@.len(),
        forall|i: int| 0 <= i < j ==> lex_lt(#[trigger] entries@[i].0@, key@),
        j < entries@.len() ==> !lex_lt(entries@[j as int].0@, key@),
{
    let n = entries.len();
    let mut j: usize = 0;
    while j < n
        invariant
            0 <= j <= n,
            n == entries@.len(),
            forall|i: int| 0 <= i < j ==> lex_lt(#[trigger] entries@[i].0@, key@),
        decreases n - j,
    {
        match crate::bytes::lex_cmp(&entries[j].0, key) {
            crate::bytes::Cmp::Lt => {
                j = j + 1;
            },
            _ => {
                return j;
            },
        }
    }
    j
}

} // verus!
