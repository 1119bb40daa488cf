//! The streaming binary codec for a Corpus: length-framed entries in sorted
//! key order, all integers 64-bit little-endian. The layout is: outer entry
//! count, then per author its byte length, its bytes, its word-entry count,
//! and per word the word's byte length, its bytes and its 8-byte count.

use vstd::prelude::*;

use vstd::bytes::{
    lemma_auto_spec_u64_to_from_le_bytes, spec_u64_from_le_bytes, spec_u64_to_le_bytes,
    u64_from_le_bytes, u64_to_le_bytes,
};
use vstd::slice::{slice_subrange, slice_to_vec};

use crate::assoc::{
    lemma_lookup_has, lemma_sorted_unique_repr, seq_has_key, seq_lookup, sorted_entries,
};
use crate::bytes::{lex_lt, lemma_lex_asym, lemma_lex_irrefl, lemma_lex_trans};
use crate::corpus::Corpus;
use crate::wordcount::WordCount;

verus! {

/// Decoding failed: the bytes are truncated or structurally invalid.
#[derive(Clone, Copy, Debug, PartialEq, Eq, Structural)]
pub enum CodecError {
    Malformed,
}

pub open spec fn enc_u64(x: u64) -> Seq<u8> {
    spec_u64_to_le_bytes(x)
}

/// A length-prefixed byte string.
pub open spec fn enc_blob(b: Seq<u8>) -> Seq<u8> {
    enc_u64(b.len() as u64) + b
}

/// The word entries of one author, in sequence order.
pub open spec fn enc_words(s: Seq<(Seq<u8>, u64)>) -> Seq<u8>
    decreases s.len(),
{
    if s.len() == 0 {
        Seq::empty()
    } else {
        enc_blob(s[0].0) + enc_u64(s[0].1) + enc_words(s.drop_first())
    }
}

/// One author entry: the author's bytes, then its word entries with their
/// count.
pub open spec fn enc_author(e: (Seq<u8>, Seq<(Seq<u8>, u64)>)) -> Seq<u8> {
    enc_blob(e.0) + enc_u64(e.1.len() as u64) + enc_words(e.1)
}

pub open spec fn enc_authors(s: Seq<(Seq<u8>, Seq<(Seq<u8>, u64)>)>) -> Seq<u8>
    decreases s.len(),
{
    if s.len() == 0 {
        Seq::empty()
    } else {
        enc_author(s[0]) + enc_authors(s.drop_first())
    }
}

/// The whole stream for a corpus model.
pub open spec fn enc_corpus(m: Seq<(Seq<u8>, Seq<(Seq<u8>, u64)>)>) -> Seq<u8> {
    enc_u64(m.len() as u64) + enc_authors(m)
}

pub open spec fn dec_u64(b: Seq<u8>, p: int) -> Option<(u64, int)> {
    if 0 <= p && p + 8 <= b.len() {
        Some((spec_u64_from_le_bytes(b.subrange(p, p + 8)), p + 8))
    } else {
        None
    }
}

pub open spec fn dec_blob(b: Seq<u8>, p: int) -> Option<(Seq<u8>, int)> {
    match dec_u64(b, p) {
        None => None,
        Some((n, p1)) => {
            if p1 + n <= b.len() {
                Some((b.subrange(p1, p1 + n), p1 + n))
            } else {
                None
            }
        },
    }
}

/// Whether a key read after `lo` keeps the stream strictly ascending.
pub open spec fn key_ok(lo: Option<Seq<u8>>, k: Seq<u8>) -> bool {
    match lo {
        None => true,
        Some(l) => lex_lt(l, k),
    }
}

/// Parses `cnt` word entries at `p`, keys strictly ascending above `lo`.
pub open spec fn dec_words(b: Seq<u8>, p: int, cnt: nat, lo: Option<Seq<u8>>) -> Option<
    (Seq<(Seq<u8>, u64)>, int),
>
    decreases cnt,
{
    if cnt == 0 {
        Some((Seq::empty(), p))
    } else {
        match dec_blob(b, p) {
            None => None,
            Some((w, p1)) => {
                if !key_ok(lo, w) {
                    None
                } else {
                    match dec_u64(b, p1) {
                        None => None,
                        Some((c, p2)) => {
                            match dec_words(b, p2, (cnt - 1) as nat, Some(w)) {
                                None => None,
                                Some((rest, p3)) => Some((seq![(w, c)] + rest, p3)),
                            }
                        },
                    }
                }
            },
        }
    }
}

/// Parses `cnt` author entries at `p`, keys strictly ascending above `lo`.
pub open spec fn dec_authors(b: Seq<u8>, p: int, cnt: nat, lo: Option<Seq<u8>>) -> Option<
    (Seq<(Seq<u8>, Seq<(Seq<u8>, u64)>)>, int),
>
    decreases cnt,
{
    if cnt == 0 {
        Some((Seq::empty(), p))
    } else {
        match dec_blob(b, p) {
            None => None,
            Some((a, p1)) => {
                if !key_ok(lo, a) {
                    None
                } else {
                    match dec_u64(b, p1) {
                        None => None,
                        Some((wcnt, p2)) => {
                            match dec_words(b, p2, wcnt as nat, None) {
                                None => None,
                                Some((ws, p3)) => {
                                    match dec_authors(b, p3, (cnt - 1) as nat, Some(a)) {
                                        None => None,
                                        Some((rest, p4)) => Some((seq![(a, ws)] + rest, p4)),
                                    }
                                },
                            }
                        },
                    }
                }
            },
        }
    }
}

/// What a byte stream means: the corpus model it encodes, if it is a
/// complete, well-formed encoding.
pub open spec fn dec_corpus(b: Seq<u8>) -> Option<Seq<(Seq<u8>, Seq<(Seq<u8>, u64)>)>> {
    match dec_u64(b, 0) {
        None => None,
        Some((n, p)) => {
            match dec_authors(b, p, n as nat, None) {
                None => None,
                Some((m, p2)) => {
                    if p2 == b.len() {
                        Some(m)
                    } else {
                        None
                    }
                },
            }
        },
    }
}

/// `c` stands in `b` at position `p`.
pub open spec fn at_pos(b: Seq<u8>, p: int, c: Seq<u8>) -> bool {
    &&& 0 <= p
    &&& p + c.len() <= b.len()
    &&& b.subrange(p, p + c.len()) == c
}

/// A chunk standing at `p` splits into its two halves.
pub proof fn lemma_at_split(b: Seq<u8>, p: int, c1: Seq<u8>, c2: Seq<u8>)
    requires
        at_pos(b, p, c1 + c2),
    ensures
        at_pos(b, p, c1),
        at_pos(b, p + c1.len(), c2),
{
    let whole = b.subrange(p, p + (c1 + c2).len());
    assert(b.subrange(p, p + c1.len()) =~= c1) by {
        assert forall|i: int| 0 <= i < c1.len() implies b.subrange(p, p + c1.len())[i]
            == c1[i] by {
            assert(whole[i] == (c1 + c2)[i]);
        }
    }
    assert(b.subrange(p + c1.len(), p + c1.len() + c2.len()) =~= c2) by {
        assert forall|i: int|
            0 <= i < c2.len() implies b.subrange(p + c1.len(), p + c1.len() + c2.len())[i]
            == c2[i] by {
            assert(whole[c1.len() + i] == (c1 + c2)[c1.len() + i]);
        }
    }
}

/// Reading a u64 where one was written yields it back.
pub proof fn lemma_dec_u64_at(b: Seq<u8>, p: int, x: u64)
    requires
        at_pos(b, p, enc_u64(x)),
    ensures
        dec_u64(b, p) == Some((x, p + 8)),
{
    lemma_auto_spec_u64_to_from_le_bytes();
    assert(enc_u64(x).len() == 8);
    assert(b.subrange(p, p + 8) == enc_u64(x));
}

/// Reading a blob where one was written yields it back.
pub proof fn lemma_dec_blob_at(b: Seq<u8>, p: int, w: Seq<u8>)
    requires
        at_pos(b, p, enc_blob(w)),
        w.len() <= u64::MAX,
    ensures
        dec_blob(b, p) == Some((w, p + 8 + w.len())),
{
    lemma_auto_spec_u64_to_from_le_bytes();
    lemma_at_split(b, p, enc_u64(w.len() as u64), w);
    lemma_dec_u64_at(b, p, w.len() as u64);
    assert((w.len() as u64) as int == w.len());
    assert(b.subrange(p + 8, p + 8 + w.len()) == w);
}

/// Word entries fit the stream: keys strictly ascending, lengths in range.
pub open spec fn words_model_wf(s: Seq<(Seq<u8>, u64)>) -> bool {
    &&& forall|i: int, j: int| 0 <= i < j < s.len() ==> #[trigger] lex_lt(s[i].0, s[j].0)
    &&& forall|i: int| 0 <= i < s.len() ==> (#[trigger] s[i].0).len() <= u64::MAX
}

/// A corpus model fits the stream: counts in range, authors strictly
/// ascending, each author's words well-formed.
pub open spec fn model_wf(m: Seq<(Seq<u8>, Seq<(Seq<u8>, u64)>)>) -> bool {
    &&& m.len() <= u64::MAX
    &&& forall|i: int, j: int| 0 <= i < j < m.len() ==> #[trigger] lex_lt(m[i].0, m[j].0)
    &&& forall|i: int|
        0 <= i < m.len() ==> (#[trigger] m[i].0).len() <= u64::MAX && m[i].1.len() <= u64::MAX
            && words_model_wf(m[i].1)
}

/// Parsing word entries where they were written yields them back.
pub proof fn lemma_dec_enc_words(b: Seq<u8>, p: int, s: Seq<(Seq<u8>, u64)>, lo: Option<Seq<u8>>)
    requires
        at_pos(b, p, enc_words(s)),
        words_model_wf(s),
        s.len() > 0 ==> key_ok(lo, s[0].0),
    ensures
        dec_words(b, p, s.len(), lo) == Some((s, p + enc_words(s).len())),
    decreases s.len(),
{
    lemma_auto_spec_u64_to_from_le_bytes();
    if s.len() == 0 {
        assert(s =~= Seq::<(Seq<u8>, u64)>::empty());
    } else {
        let e = s[0];
        let rest = s.drop_first();
        assert(enc_words(s) == enc_blob(e.0) + enc_u64(e.1) + enc_words(rest));
        assert(enc_blob(e.0) + enc_u64(e.1) + enc_words(rest) =~= (enc_blob(e.0) + enc_u64(e.1))
            + enc_words(rest));
        lemma_at_split(b, p, enc_blob(e.0) + enc_u64(e.1), enc_words(rest));
        lemma_at_split(b, p, enc_blob(e.0), enc_u64(e.1));
        lemma_dec_blob_at(b, p, e.0);
        let p1 = p + 8 + e.0.len();
        assert(p1 == p + enc_blob(e.0).len());
        lemma_dec_u64_at(b, p1, e.1);
        let p2 = p1 + 8;
        assert(words_model_wf(rest)) by {
            assert forall|i: int, j: int| 0 <= i < j < rest.len() implies #[trigger] lex_lt(
                rest[i].0,
                rest[j].0,
            ) by {
                assert(lex_lt(s[i + 1].0, s[j + 1].0));
            }
            assert forall|i: int| 0 <= i < rest.len() implies (#[trigger] rest[i].0).len()
                <= u64::MAX by {
                assert(s[i + 1].0.len() <= u64::MAX);
            }
        }
        if rest.len() > 0 {
            assert(lex_lt(s[0].0, s[1].0));
            assert(key_ok(Some(e.0), rest[0].0));
        }
        assert(at_pos(b, p2, enc_words(rest)));
        lemma_dec_enc_words(b, p2, rest, Some(e.0));
        assert(seq![e] + rest =~= s);
        assert(dec_words(b, p, s.len(), lo) == Some((s, p + enc_words(s).len())));
    }
}

/// Parsing author entries where they were written yields them back.
pub proof fn lemma_dec_enc_authors(
    b: Seq<u8>,
    p: int,
    m: Seq<(Seq<u8>, Seq<(Seq<u8>, u64)>)>,
    lo: Option<Seq<u8>>,
)
    requires
        at_pos(b, p, enc_authors(m)),
        model_wf(m),
        m.len() > 0 ==> key_ok(lo, m[0].0),
    ensures
        dec_authors(b, p, m.len(), lo) == Some((m, p + enc_authors(m).len())),
    decreases m.len(),
{
    lemma_auto_spec_u64_to_from_le_bytes();
    if m.len() == 0 {
        assert(m =~= Seq::<(Seq<u8>, Seq<(Seq<u8>, u64)>)>::empty());
    } else {
        let e = m[0];
        let rest = m.drop_first();
        assert(enc_authors(m) == enc_author(e) + enc_authors(rest));
        assert(enc_author(e) == enc_blob(e.0) + enc_u64(e.1.len() as u64) + enc_words(e.1));
        assert(enc_author(e) + enc_authors(rest) =~= (enc_blob(e.0) + enc_u64(e.1.len() as u64)
            + enc_words(e.1)) + enc_authors(rest));
        assert(enc_blob(e.0) + enc_u64(e.1.len() as u64) + enc_words(e.1) =~= (enc_blob(e.0)
            + enc_u64(e.1.len() as u64)) + enc_words(e.1));
        assert((enc_blob(e.0) + enc_u64(e.1.len() as u64) + enc_words(e.1)) + enc_authors(rest)
            =~= ((enc_blob(e.0) + enc_u64(e.1.len() as u64)) + enc_words(e.1)) + enc_authors(
            rest,
        ));
        lemma_at_split(
            b,
            p,
            (enc_blob(e.0) + enc_u64(e.1.len() as u64)) + enc_words(e.1),
            enc_authors(rest),
        );
        lemma_at_split(b, p, enc_blob(e.0) + enc_u64(e.1.len() as u64), enc_words(e.1));
        lemma_at_split(b, p, enc_blob(e.0), enc_u64(e.1.len() as u64));
        lemma_dec_blob_at(b, p, e.0);
        let p1 = p + 8 + e.0.len();
        assert(p1 == p + enc_blob(e.0).len());
        lemma_dec_u64_at(b, p1, e.1.len() as u64);
        let p2 = p1 + 8;
        assert((e.1.len() as u64) as nat == e.1.len());
        lemma_dec_enc_words(b, p2, e.1, None);
        let p3 = p2 + enc_words(e.1).len();
        assert(model_wf(rest)) by {
            assert forall|i: int, j: int| 0 <= i < j < rest.len() implies #[trigger] lex_lt(
                rest[i].0,
                rest[j].0,
            ) by {
                assert(lex_lt(m[i + 1].0, m[j + 1].0));
            }
            assert forall|i: int| 0 <= i < rest.len() implies (#[trigger] rest[i].0).len()
                <= u64::MAX && rest[i].1.len() <= u64::MAX && words_model_wf(rest[i].1) by {
                assert(m[i + 1].0.len() <= u64::MAX && m[i + 1].1.len() <= u64::MAX
                    && words_model_wf(m[i + 1].1));
            }
        }
        if rest.len() > 0 {
            assert(lex_lt(m[0].0, m[1].0));
            assert(key_ok(Some(e.0), rest[0].0));
        }
        assert(at_pos(b, p3, enc_authors(rest)));
        lemma_dec_enc_authors(b, p3, rest, Some(e.0));
        assert(seq![(e.0, e.1)] + rest =~= m);
        assert(dec_authors(b, p, m.len(), lo) == Some((m, p + enc_authors(m).len())));
    }
}

/// Round trip: the encoding of any well-formed corpus model decodes to
/// exactly that model. This covers the empty corpus, single entries,
/// non-text byte keys and counts up to the 64-bit maximum alike.
pub proof fn lemma_round_trip(m: Seq<(Seq<u8>, Seq<(Seq<u8>, u64)>)>)
    requires
        model_wf(m),
    ensures
        dec_corpus(enc_corpus(m)) == Some(m),
{
    lemma_auto_spec_u64_to_from_le_bytes();
    let b = enc_corpus(m);
    assert(at_pos(b, 0, enc_u64(m.len() as u64) + enc_authors(m))) by {
        assert(b.subrange(0, b.len() as int) =~= b);
    }
    lemma_at_split(b, 0, enc_u64(m.len() as u64), enc_authors(m));
    lemma_dec_u64_at(b, 0, m.len() as u64);
    assert((m.len() as u64) as nat == m.len());
    lemma_dec_enc_authors(b, 8, m, None);
}

/// Whatever parses as word entries is well-formed: ascending keys above the
/// floor, lengths in range, exactly `cnt` entries.
pub proof fn lemma_dec_words_wf(b: Seq<u8>, p: int, cnt: nat, lo: Option<Seq<u8>>)
    ensures
        dec_words(b, p, cnt, lo) matches Some(x) ==> x.0.len() == cnt && words_model_wf(x.0) && (
        lo matches Some(l) ==> forall|i: int| 0 <= i < x.0.len() ==> lex_lt(l, #[trigger] x.0[i].0)),
    decreases cnt,
{
    if cnt > 0 && dec_words(b, p, cnt, lo) is Some {
        let x = dec_words(b, p, cnt, lo)->Some_0;
        let (w, p1) = dec_blob(b, p)->Some_0;
        let (c, p2) = dec_u64(b, p1)->Some_0;
        lemma_dec_words_wf(b, p2, (cnt - 1) as nat, Some(w));
        let rest = dec_words(b, p2, (cnt - 1) as nat, Some(w))->Some_0.0;
        assert(x.0 == seq![(w, c)] + rest);
        assert(x.0[0] == (w, c));
        assert(w.len() <= u64::MAX) by {
            let (n, pn) = dec_u64(b, p)->Some_0;
            assert(w == b.subrange(pn, pn + n));
        }
        assert forall|i: int, j: int| 0 <= i < j < x.0.len() implies #[trigger] lex_lt(
            x.0[i].0,
            x.0[j].0,
        ) by {
            assert(x.0[j] == rest[j - 1]);
            assert(lex_lt(w, rest[j - 1].0));
            if i > 0 {
                assert(x.0[i] == rest[i - 1]);
            }
        }
        assert forall|i: int| 0 <= i < x.0.len() implies (#[trigger] x.0[i].0).len()
            <= u64::MAX by {
            if i > 0 {
                assert(x.0[i] == rest[i - 1]);
            }
        }
        if lo is Some {
            let l = lo->Some_0;
            assert forall|i: int| 0 <= i < x.0.len() implies lex_lt(l, #[trigger] x.0[i].0) by {
                assert(lex_lt(l, w));
                if i > 0 {
                    assert(x.0[i] == rest[i - 1]);
                    assert(lex_lt(w, rest[i - 1].0));
                    lemma_lex_trans(l, w, rest[i - 1].0);
                }
            }
        }
    }
}

/// Whatever parses as author entries is well-formed in the same way, with
/// each author's words well-formed too.
pub proof fn lemma_dec_authors_wf(b: Seq<u8>, p: int, cnt: nat, lo: Option<Seq<u8>>)
    ensures
        dec_authors(b, p, cnt, lo) matches Some(x) ==> x.0.len() == cnt && (forall|i: int, j: int|
            0 <= i < j < x.0.len() ==> #[trigger] lex_lt(x.0[i].0, x.0[j].0)) && (forall|i: int|
            0 <= i < x.0.len() ==> (#[trigger] x.0[i].0).len() <= u64::MAX && x.0[i].1.len()
                <= u64::MAX && words_model_wf(x.0[i].1)) && (lo matches Some(l) ==> forall|i: int|
            0 <= i < x.0.len() ==> lex_lt(l, #[trigger] x.0[i].0)),
    decreases cnt,
{
    if cnt > 0 && dec_authors(b, p, cnt, lo) is Some {
        let x = dec_authors(b, p, cnt, lo)->Some_0;
        let (a, p1) = dec_blob(b, p)->Some_0;
        let (wcnt, p2) = dec_u64(b, p1)->Some_0;
        lemma_dec_words_wf(b, p2, wcnt as nat, None);
        let ws = dec_words(b, p2, wcnt as nat, None)->Some_0.0;
        let p3 = dec_words(b, p2, wcnt as nat, None)->Some_0.1;
        lemma_dec_authors_wf(b, p3, (cnt - 1) as nat, Some(a));
        let rest = dec_authors(b, p3, (cnt - 1) as nat, Some(a))->Some_0.0;
        assert(x.0 == seq![(a, ws)] + rest);
        assert(x.0[0] == (a, ws));
        assert(a.len() <= u64::MAX) by {
            let (n, pn) = dec_u64(b, p)->Some_0;
            assert(a == b.subrange(pn, pn + n));
        }
        assert(ws.len() == wcnt as nat);
        assert forall|i: int, j: int| 0 <= i < j < x.0.len() implies #[trigger] lex_lt(
            x.0[i].0,
            x.0[j].0,
        ) by {
            assert(x.0[j] == rest[j - 1]);
            assert(lex_lt(a, rest[j - 1].0));
            if i > 0 {
                assert(x.0[i] == rest[i - 1]);
            }
        }
        assert forall|i: int| 0 <= i < x.0.len() implies (#[trigger] x.0[i].0).len() <= u64::MAX
            && x.0[i].1.len() <= u64::MAX && words_model_wf(x.0[i].1) by {
            if i > 0 {
                assert(x.0[i] == rest[i - 1]);
            }
        }
        if lo is Some {
            let l = lo->Some_0;
            assert forall|i: int| 0 <= i < x.0.len() implies lex_lt(l, #[trigger] x.0[i].0) by {
                assert(lex_lt(l, a));
                if i > 0 {
                    assert(x.0[i] == rest[i - 1]);
                    assert(lex_lt(a, rest[i - 1].0));
                    lemma_lex_trans(l, a, rest[i - 1].0);
                }
            }
        }
    }
}

/// Migration pass-through: a corpus model decoded from any existing stream
/// is itself well-formed, so the current encoder accepts it unmodified, and
/// re-encoding then decoding yields the same author/word/count triples.
pub proof fn lemma_migration_passthrough(b: Seq<u8>)
    ensures
        dec_corpus(b) matches Some(m) ==> model_wf(m) && dec_corpus(enc_corpus(m)) == Some(m),
{
    if dec_corpus(b) is Some {
        let m = dec_corpus(b)->Some_0;
        let (n, p) = dec_u64(b, 0)->Some_0;
        lemma_dec_authors_wf(b, p, n as nat, None);
        assert(m.len() == n as nat);
        assert(model_wf(m));
        lemma_round_trip(m);
    }
}

/// Appends `src` to `out`.
fn append_bytes(out: &mut Vec<u8>, src: &Vec<u8>)
    ensures
        final(out)@ == old(out)@ + src@,
{
    let n = src.len();
    let mut i: usize = 0;
    while i < n
        invariant
            0 <= i <= n,
            n == src@.len(),
            out@ == old(out)@ + src@.subrange(0, i as int),
        decreases n - i,
    {
        out.push(src[i]);
        proof {
            assert(out@ =~= old(out)@ + src@.subrange(0, i + 1));
        }
        i = i + 1;
    }
    proof {
        assert(out@ =~= old(out)@ + src@);
    }
}

/// Appends the little-endian bytes of `x` to `out`.
fn append_u64(out: &mut Vec<u8>, x: u64)
    ensures
        final(out)@ == old(out)@ + enc_u64(x),
{
    let b = u64_to_le_bytes(x);
    append_bytes(out, &b);
}

impl WordCount {
    /// The byte stream of this author's word entries.
    fn encode_words(&self) -> (r: Vec<u8>)
        ensures
            r@ == enc_words(self.model()),
    {
        let mut out: Vec<u8> = Vec::new();
        let n = self.entries.len();
        let mut i: usize = 0;
        proof {
            assert(out@ =~= Seq::<u8>::empty());
        }
        while i < n
            invariant
                0 <= i <= n,
                n == self.entries@.len(),
                out@ == enc_words(self.model().take(i as int)),
            decreases n - i,
        {
            let blen = self.entries[i].0.len() as u64;
            append_u64(&mut out, blen);
            append_bytes(&mut out, &self.entries[i].0);
            append_u64(&mut out, self.entries[i].1);
            proof {
                lemma_enc_words_push(self.model().take(i as int), self.model()[i as int]);
                assert(self.model().take(i as int + 1) =~= self.model().take(i as int).push(
                    self.model()[i as int],
                ));
                assert(self.model()[i as int].0 == self.entries@[i as int].0@);
                assert(out@ =~= enc_words(self.model().take(i as int + 1)));
            }
            i = i + 1;
        }
        proof {
            assert(self.model().take(n as int) =~= self.model());
        }
        out
    }
}

/// Appending one entry to a word sequence appends its encoding.
pub proof fn lemma_enc_words_push(s: Seq<(Seq<u8>, u64)>, e: (Seq<u8>, u64))
    ensures
        enc_words(s.push(e)) == enc_words(s) + enc_blob(e.0) + enc_u64(e.1),
    decreases s.len(),
{
    let s2 = s.push(e);
    if s.len() == 0 {
        assert(s2.drop_first() =~= Seq::<(Seq<u8>, u64)>::empty());
        assert(s2[0] == e);
        assert(enc_words(s2.drop_first()) == Seq::<u8>::empty());
        assert(enc_words(s2) == enc_blob(e.0) + enc_u64(e.1) + enc_words(s2.drop_first()));
        assert(enc_words(s) == Seq::<u8>::empty());
        assert(enc_words(s2) =~= enc_words(s) + enc_blob(e.0) + enc_u64(e.1));
    } else {
        assert(s2.drop_first() =~= s.drop_first().push(e));
        lemma_enc_words_push(s.drop_first(), e);
        assert(s2[0] == s[0]);
        assert(enc_words(s2) =~= enc_words(s) + enc_blob(e.0) + enc_u64(e.1));
    }
}

/// Appending one author to a model appends that author's encoding.
pub proof fn lemma_enc_authors_push(
    s: Seq<(Seq<u8>, Seq<(Seq<u8>, u64)>)>,
    e: (Seq<u8>, Seq<(Seq<u8>, u64)>),
)
    ensures
        enc_authors(s.push(e)) == enc_authors(s) + enc_author(e),
    decreases s.len(),
{
    let s2 = s.push(e);
    if s.len() == 0 {
        assert(s2.drop_first() =~= Seq::<(Seq<u8>, Seq<(Seq<u8>, u64)>)>::empty());
        assert(s2[0] == e);
        assert(enc_authors(s2.drop_first()) == Seq::<u8>::empty());
        assert(enc_authors(s2) == enc_author(e) + enc_authors(s2.drop_first()));
        assert(enc_authors(s) == Seq::<u8>::empty());
        assert(enc_authors(s2) =~= enc_authors(s) + enc_author(e));
    } else {
        assert(s2.drop_first() =~= s.drop_first().push(e));
        lemma_enc_authors_push(s.drop_first(), e);
        assert(s2[0] == s[0]);
        assert(enc_authors(s2) =~= enc_authors(s) + enc_author(e));
    }
}

impl Corpus {
    /// The stream's header: the author count.
    pub fn encode_header(&self) -> (r: Vec<u8>)
        ensures
            r@ == enc_u64(self.model().len() as u64),
    {
        let mut out: Vec<u8> = Vec::new();
        append_u64(&mut out, self.entries.len() as u64);
        proof {
            assert(out@ =~= enc_u64(self.model().len() as u64));
        }
        out
    }

    /// The byte chunk of author entry `i`: what a streaming writer sends to
    /// its sink after the header, one author at a time.
    pub fn encode_author_entry(&self, i: usize) -> (r: Vec<u8>)
        requires
            i < self.entries@.len(),
        ensures
            r@ == enc_author(self.model()[i as int]),
    {
        let mut out: Vec<u8> = Vec::new();
        let blen = self.entries[i].0.len() as u64;
        append_u64(&mut out, blen);
        append_bytes(&mut out, &self.entries[i].0);
        append_u64(&mut out, self.entries[i].1.word_count_len() as u64);
        let ws = self.entries[i].1.encode_words();
        append_bytes(&mut out, &ws);
        proof {
            assert(self.model()[i as int].0 == self.entries@[i as int].0@);
            assert(self.model()[i as int].1 == self.entries@[i as int].1.model());
            assert(out@ =~= enc_author(self.model()[i as int]));
        }
        out
    }

    /// The whole encoded stream for this corpus.
    pub fn encode(&self) -> (r: Vec<u8>)
        ensures
            r@ == enc_corpus(self.model()),
    {
        let mut out = self.encode_header();
        let n = self.entries.len();
        let mut i: usize = 0;
        proof {
            assert(enc_authors(self.model().take(0)) =~= Seq::<u8>::empty());
            assert(out@ =~= enc_u64(self.model().len() as u64) + enc_authors(
                self.model().take(0),
            ));
        }
        while i < n
            invariant
                0 <= i <= n,
                n == self.entries@.len(),
                out@ == enc_u64(self.model().len() as u64) + enc_authors(
                    self.model().take(i as int),
                ),
            decreases n - i,
        {
            let chunk = self.encode_author_entry(i);
            append_bytes(&mut out, &chunk);
            proof {
                lemma_enc_authors_push(self.model().take(i as int), self.model()[i as int]);
                assert(self.model().take(i as int + 1) =~= self.model().take(i as int).push(
                    self.model()[i as int],
                ));
                assert(out@ =~= enc_u64(self.model().len() as u64) + enc_authors(
                    self.model().take(i as int + 1),
                ));
            }
            i = i + 1;
        }
        proof {
            assert(self.model().take(n as int) =~= self.model());
        }
        out
    }
}

/// Reads one little-endian u64 at `p`.
fn read_u64(data: &[u8], p: usize) -> (r: Option<(u64, usize)>)
    ensures
        match r {
            Some((x, p2)) => dec_u64(data@, p as int) == Some((x, p2 as int)) && p2 == p + 8 && p2
                <= data@.len(),
            None => dec_u64(data@, p as int) is None,
        },
{
    if data.len() < 8 || p > data.len() - 8 {
        return None;
    }
    let s = slice_subrange(data, p, p + 8);
    let x = u64_from_le_bytes(s);
    Some((x, p + 8))
}

/// Reads one length-prefixed byte string at `p`.
fn read_blob(data: &[u8], p: usize) -> (r: Option<(Vec<u8>, usize)>)
    ensures
        match r {
            Some((v, p2)) => dec_blob(data@, p as int) == Some((v@, p2 as int)) && p <= p2
                <= data@.len(),
            None => dec_blob(data@, p as int) is None,
        },
{
    match read_u64(data, p) {
        None => None,
        Some((n, p1)) => {
            if n > (data.len() - p1) as u64 {
                return None;
            }
            let nn = n as usize;
            let v = slice_to_vec(slice_subrange(data, p1, p1 + nn));
            Some((v, p1 + nn))
        },
    }
}

/// The key of the last entry, if any: the floor the next key must exceed.
pub open spec fn last_key<V>(s: Seq<(Vec<u8>, V)>) -> Option<Seq<u8>> {
    if s.len() == 0 {
        None
    } else {
        Some(s.last().0@)
    }
}

/// Parses `cnt` word entries at `p0` into a word count.
fn decode_words(data: &[u8], p0: usize, cnt: u64) -> (r: Option<(WordCount, usize)>)
    requires
        p0 <= data@.len(),
    ensures
        match r {
            Some((wc, p2)) => wc.wf() && dec_words(data@, p0 as int, cnt as nat, None) == Some(
                (wc.model(), p2 as int),
            ) && p0 <= p2 <= data@.len(),
            None => dec_words(data@, p0 as int, cnt as nat, None) is None,
        },
{
    let mut acc = WordCount::new();
    let mut p = p0;
    let mut k: u64 = 0;
    proof {
        assert(acc.model() =~= Seq::<(Seq<u8>, u64)>::empty());
        assert forall|rest: Seq<(Seq<u8>, u64)>| #[trigger] (acc.model() + rest) == rest by {
            assert(acc.model().len() == 0);
            assert((acc.model() + rest).len() == rest.len());
            assert forall|i: int| 0 <= i < rest.len() implies (acc.model() + rest)[i]
                == rest[i] by {}
            assert(acc.model() + rest =~= rest);
        }
        assert(last_key(acc.entries@) is None);
    }
    while k < cnt
        invariant
            0 <= k <= cnt,
            acc.wf(),
            acc.entries@.len() == k,
            p0 <= p <= data@.len(),
            dec_words(data@, p0 as int, cnt as nat, None) == match dec_words(
                data@,
                p as int,
                (cnt - k) as nat,
                last_key(acc.entries@),
            ) {
                None => None::<(Seq<(Seq<u8>, u64)>, int)>,
                Some((rest, pe)) => Some((acc.model() + rest, pe)),
            },
        decreases cnt - k,
    {
        let ghost lo = last_key(acc.entries@);
        let ghost acc0 = acc.model();
        match read_blob(data, p) {
            None => {
                return None;
            },
            Some((w, p1)) => {
                if acc.entries.len() > 0 {
                    let last_i = acc.entries.len() - 1;
                    match crate::bytes::lex_cmp(&acc.entries[last_i].0, &w) {
                        crate::bytes::Cmp::Lt => {},
                        _ => {
                            proof {
                                lemma_lex_irrefl(w@);
                                if lex_lt(w@, acc.entries@.last().0@) {
                                    lemma_lex_asym(w@, acc.entries@.last().0@);
                                }
                                assert(!key_ok(lo, w@));
                            }
                            return None;
                        },
                    }
                }
                match read_u64(data, p1) {
                    None => {
                        return None;
                    },
                    Some((c, p2)) => {
                        proof {
                            assert(key_ok(lo, w@));
                            assert forall|i: int|
                                0 <= i < acc.entries@.len() implies lex_lt(
                                #[trigger] acc.entries@[i].0@,
                                w@,
                            ) by {
                                if i < acc.entries@.len() - 1 {
                                    lemma_lex_trans(
                                        acc.entries@[i].0@,
                                        acc.entries@.last().0@,
                                        w@,
                                    );
                                }
                            }
                        }
                        acc.entries.push((w, c));
                        p = p2;
                        k = k + 1;
                        proof {
                            assert(sorted_entries(acc.entries@));
                            assert(acc.model() =~= acc0.push((acc.entries@.last().0@, c)));
                            assert forall|rest: Seq<(Seq<u8>, u64)>|
                                true implies acc0 + (seq![(acc.entries@.last().0@, c)] + rest)
                                =~= acc.model() + rest by {}
                        }
                    },
                }
            },
        }
    }
    proof {
        assert(dec_words(data@, p as int, 0, last_key(acc.entries@)) == Some(
            (Seq::<(Seq<u8>, u64)>::empty(), p as int),
        ));
        assert(acc.model() + Seq::<(Seq<u8>, u64)>::empty() =~= acc.model());
    }
    Some((acc, p))
}

/// A well-formed corpus value's model fits the stream: machine vectors are
/// always short enough for the 64-bit length fields.
pub proof fn lemma_corpus_model_wf(c: &Corpus)
    requires
        c.wf(),
    ensures
        model_wf(c.model()),
{
    broadcast use vstd::std_specs::vec::axiom_spec_len;

    let m = c.model();
    assert(m.len() <= u64::MAX) by {
        assert(vstd::std_specs::vec::spec_vec_len(&c.entries) == c.entries@.len());
    }
    assert forall|i: int, j: int| 0 <= i < j < m.len() implies #[trigger] lex_lt(
        m[i].0,
        m[j].0,
    ) by {
        assert(lex_lt(c.entries@[i].0@, c.entries@[j].0@));
    }
    assert forall|i: int| 0 <= i < m.len() implies (#[trigger] m[i].0).len() <= u64::MAX
        && m[i].1.len() <= u64::MAX && words_model_wf(m[i].1) by {
        let key = c.entries@[i].0;
        assert(vstd::std_specs::vec::spec_vec_len(&key) == key@.len());
        let wc = c.entries@[i].1;
        assert(wc.wf());
        assert(vstd::std_specs::vec::spec_vec_len(&wc.entries) == wc.entries@.len());
        assert(m[i].1 == wc.model());
        assert forall|a: int, b2: int| 0 <= a < b2 < wc.model().len() implies #[trigger] lex_lt(
            wc.model()[a].0,
            wc.model()[b2].0,
        ) by {
            assert(lex_lt(wc.entries@[a].0@, wc.entries@[b2].0@));
        }
        assert forall|a: int| 0 <= a < wc.model().len() implies (#[trigger] wc.model()[a].0).len()
            <= u64::MAX by {
            let wkey = wc.entries@[a].0;
            assert(vstd::std_specs::vec::spec_vec_len(&wkey) == wkey@.len());
            assert(wc.model()[a].0 == wkey@);
        }
    }
}

/// Deterministic serialization: two well-formed corpora that agree as maps
/// — same authors, same per-author word counts — hold the same entries in
/// the same order, and so encode to identical byte streams, however each
/// was built.
pub proof fn lemma_deterministic_encoding(c1: &Corpus, c2: &Corpus)
    requires
        c1.wf(),
        c2.wf(),
        c1@ == c2@,
    ensures
        c1.model() == c2.model(),
        enc_corpus(c1.model()) == enc_corpus(c2.model()),
{
    let s1 = c1.entries@;
    let s2 = c2.entries@;
    assert forall|k: Seq<u8>| #[trigger] seq_has_key(s1, k) <==> seq_has_key(s2, k) by {
        c1.lemma_view_get(k);
        c2.lemma_view_get(k);
    }
    assert forall|k: Seq<u8>| #[trigger] seq_lookup(s1, k) == #[trigger] seq_lookup(s2, k) by {
        c1.lemma_view_get(k);
        c2.lemma_view_get(k);
        lemma_lookup_has::<WordCount>(s1, k);
        lemma_lookup_has::<WordCount>(s2, k);
        if c1@.contains_key(k) {
            assert(c1@[k] == c2@[k]);
        }
    }
    lemma_sorted_unique_repr::<WordCount>(s1, s2);
    assert forall|i: int| 0 <= i < s1.len() implies #[trigger] c1.model()[i]
        == c2.model()[i] by {
        let w1 = s1[i].1;
        let w2 = s2[i].1;
        assert(w1.wf() && w2.wf());
        assert(w1@ == w2@);
        assert forall|k: Seq<u8>| #[trigger] seq_has_key(w1.entries@, k) <==> seq_has_key(
            w2.entries@,
            k,
        ) by {
            w1.lemma_view_get(k);
            w2.lemma_view_get(k);
        }
        assert forall|k: Seq<u8>| #[trigger] seq_lookup(w1.entries@, k) == #[trigger] seq_lookup(
            w2.entries@,
            k,
        ) by {
            w1.lemma_view_get(k);
            w2.lemma_view_get(k);
            lemma_lookup_has::<u64>(w1.entries@, k);
            lemma_lookup_has::<u64>(w2.entries@, k);
            if w1@.contains_key(k) {
                assert(w1@[k] == w2@[k]);
            }
        }
        lemma_sorted_unique_repr::<u64>(w1.entries@, w2.entries@);
        assert(w1.model() =~= w2.model());
        assert(c1.model()[i] == (s1[i].0@, w1.model()));
        assert(c2.model()[i] == (s2[i].0@, w2.model()));
    }
    assert(c1.model() =~= c2.model());
}

/// Round trip for a built corpus: decoding its encoding yields exactly its
/// entries, in order.
pub proof fn lemma_round_trip_corpus(c: &Corpus)
    requires
        c.wf(),
    ensures
        dec_corpus(enc_corpus(c.model())) == Some(c.model()),
{
    lemma_corpus_model_wf(c);
    lemma_round_trip(c.model());
}

/// Parses a whole encoded corpus.
pub fn decode_corpus(data: &[u8]) -> (r: Result<Corpus, CodecError>)
    ensures
        match r {
            Ok(c) => c.wf() && dec_corpus(data@) == Some(c.model()),
            Err(_) => dec_corpus(data@) is None,
        },
{
    let hdr = read_u64(data, 0);
    match hdr {
        None => Err(CodecError::Malformed),
        Some((n, p_start)) => {
            let mut acc = Corpus::new();
            let mut p = p_start;
            let mut k: u64 = 0;
            proof {
                assert(acc.model() =~= Seq::<(Seq<u8>, Seq<(Seq<u8>, u64)>)>::empty());
                assert forall|rest: Seq<(Seq<u8>, Seq<(Seq<u8>, u64)>)>| #[trigger] (acc.model()
                    + rest) == rest by {
                    assert(acc.model() + rest =~= rest);
                }
                assert(last_key(acc.entries@) is None);
            }
            while k < n
                invariant
                    0 <= k <= n,
                    acc.wf(),
                    acc.entries@.len() == k,
                    p <= data@.len(),
                    dec_u64(data@, 0) == Some((n, p_start as int)),
                    dec_authors(data@, p_start as int, n as nat, None) == match dec_authors(
                        data@,
                        p as int,
                        (n - k) as nat,
                        last_key(acc.entries@),
                    ) {
                        None => None::<(Seq<(Seq<u8>, Seq<(Seq<u8>, u64)>)>, int)>,
                        Some((rest, pe)) => Some((acc.model() + rest, pe)),
                    },
                decreases n - k,
            {
                let ghost lo = last_key(acc.entries@);
                let ghost acc0 = acc.model();
                match read_blob(data, p) {
                    None => {
                        return Err(CodecError::Malformed);
                    },
                    Some((a, p1)) => {
                        if acc.entries.len() > 0 {
                            let last_i = acc.entries.len() - 1;
                            match crate::bytes::lex_cmp(&acc.entries[last_i].0, &a) {
                                crate::bytes::Cmp::Lt => {},
                                _ => {
                                    proof {
                                        lemma_lex_irrefl(a@);
                                        if lex_lt(a@, acc.entries@.last().0@) {
                                            lemma_lex_asym(a@, acc.entries@.last().0@);
                                        }
                                        assert(!key_ok(lo, a@));
                                    }
                                    return Err(CodecError::Malformed);
                                },
                            }
                        }
                        match read_u64(data, p1) {
                            None => {
                                return Err(CodecError::Malformed);
                            },
                            Some((wcnt, p2)) => {
                                match decode_words(data, p2, wcnt) {
                                    None => {
                                        return Err(CodecError::Malformed);
                                    },
                                    Some((wc, p3)) => {
                                        proof {
                                            assert(key_ok(lo, a@));
                                            assert forall|i: int|
                                                0 <= i < acc.entries@.len() implies lex_lt(
                                                #[trigger] acc.entries@[i].0@,
                                                a@,
                                            ) by {
                                                if i < acc.entries@.len() - 1 {
                                                    lemma_lex_trans(
                                                        acc.entries@[i].0@,
                                                        acc.entries@.last().0@,
                                                        a@,
                                                    );
                                                }
                                            }
                                        }
                                        let ghost wmodel = wc.model();
                                        acc.entries.push((a, wc));
                                        p = p3;
                                        k = k + 1;
                                        proof {
                                            assert(sorted_entries(acc.entries@));
                                            assert(acc.model() =~= acc0.push(
                                                (acc.entries@.last().0@, wmodel),
                                            ));
                                            assert forall|rest: Seq<
                                                (Seq<u8>, Seq<(Seq<u8>, u64)>),
                                            >|
                                                true implies acc0 + (seq![
                                                (acc.entries@.last().0@, wmodel),
                                            ] + rest) =~= acc.model() + rest by {}
                                        }
                                    },
                                }
                            },
                        }
                    },
                }
            }
            proof {
                assert(dec_authors(data@, p as int, 0, last_key(acc.entries@)) == Some(
                    (Seq::<(Seq<u8>, Seq<(Seq<u8>, u64)>)>::empty(), p as int),
                ));
                assert(acc.model() + Seq::<(Seq<u8>, Seq<(Seq<u8>, u64)>)>::empty()
                    =~= acc.model());
            }
            if p == data.len() {
                Ok(acc)
            } else {
                Err(CodecError::Malformed)
            }
        },
    }
}

} // verus!
