//! The tokenizer and the running aggregate for one input file.
//!
//! A body text is reduced to lowercase alphanumeric tokens: characters that
//! are neither alphanumeric nor whitespace are dropped, the rest is
//! casefolded, split on whitespace runs, and each non-empty token counted.
//! What Unicode makes of a single character is taken from the standard
//! library behind named results; everything around those calls is verified.

use vstd::prelude::*;

use vstd::std_specs::iter::IteratorSpec;

use crate::corpus::{corpus_merge, Corpus};
use crate::wordcount::{wc_add, WordCount};

verus! {

/// What `char::is_alphanumeric` holds of a character.
pub uninterp spec fn is_alnum(c: char) -> bool;

/// What `char::is_whitespace` holds of a character.
pub uninterp spec fn is_space(c: char) -> bool;

/// What `str::to_lowercase` makes of a character sequence.
pub uninterp spec fn lower_of(s: Seq<char>) -> Seq<char>;

/// The UTF-8 bytes of a character sequence.
pub uninterp spec fn utf8_of(s: Seq<char>) -> Seq<u8>;

/// Relies on char::is_alphanumeric: the answer depends on the character
/// alone.
#[verifier::external_body]
fn char_is_alphanumeric(c: char) -> (r: bool)
    ensures
        r == is_alnum(c),
{
    c.is_alphanumeric()
}

/// Relies on char::is_whitespace: the answer depends on the character
/// alone.
#[verifier::external_body]
fn char_is_whitespace(c: char) -> (r: bool)
    ensures
        r == is_space(c),
{
    c.is_whitespace()
}

/// Relies on str::to_lowercase: the result depends on the characters alone,
/// and an empty text stays empty.
#[verifier::external_body]
fn lowercase_chars(v: &Vec<char>) -> (r: Vec<char>)
    ensures
        r@ == lower_of(v@),
        v@.len() == 0 ==> r@.len() == 0,
{
    v.iter().collect::<String>().to_lowercase().chars().collect()
}

/// Relies on String::into_bytes: the UTF-8 encoding depends on the
/// characters alone, and encodes each character as at least one byte.
#[verifier::external_body]
pub(crate) fn chars_utf8(v: &Vec<char>) -> (b: Vec<u8>)
    ensures
        b@ == utf8_of(v@),
        v@.len() == 0 ==> b@.len() == 0,
        v@.len() > 0 ==> b@.len() > 0,
{
    v.iter().collect::<String>().into_bytes()
}

/// The characters of a string, in order.
pub fn chars_of(s: &str) -> (v: Vec<char>)
    ensures
        v@ == s@,
{
    broadcast use vstd::string::group_string_axioms;

    let mut it = s.chars();
    let mut v: Vec<char> = Vec::new();
    loop
        invariant
            it.obeys_prophetic_iter_laws(),
            v@ + it.remaining() == s@,
        decreases s@.len() - v@.len(),
    {
        match it.next() {
            Some(c) => {
                v.push(c);
                proof {
                    assert(v@ + it.remaining() =~= s@);
                }
            },
            None => {
                proof {
                    assert(v@ + it.remaining() =~= v@);
                }
                return v;
            },
        }
    }
}

/// Whether the character survives the filter: alphanumeric and whitespace
/// stay, punctuation and symbols fall away.
pub open spec fn keep_char(c: char) -> bool {
    is_alnum(c) || is_space(c)
}

/// The characters of `s` that survive the filter, in order.
pub open spec fn kept_chars(s: Seq<char>) -> Seq<char>
    decreases s.len(),
{
    if s.len() == 0 {
        Seq::empty()
    } else {
        kept_chars(s.drop_last()) + (if keep_char(s.last()) {
            seq![s.last()]
        } else {
            Seq::empty()
        })
    }
}

/// Walks the normalized text left to right: `cur` is the token being read,
/// and each whitespace boundary or the end flushes a non-empty token into
/// the counts.
pub open spec fn counts_from(m: Map<Seq<u8>, u64>, cur: Seq<char>, s: Seq<char>) -> Map<
    Seq<u8>,
    u64,
>
    decreases s.len(),
{
    if s.len() == 0 {
        if cur.len() == 0 {
            m
        } else {
            wc_add(m, utf8_of(cur), 1)
        }
    } else if is_space(s[0]) {
        counts_from(
            if cur.len() == 0 {
                m
            } else {
                wc_add(m, utf8_of(cur), 1)
            },
            Seq::empty(),
            s.drop_first(),
        )
    } else {
        counts_from(m, cur.push(s[0]), s.drop_first())
    }
}

/// The word counts of one body text: filtered, casefolded, split on
/// whitespace runs, each token counted once per occurrence.
pub open spec fn tokens_of(body: Seq<char>) -> Map<Seq<u8>, u64> {
    counts_from(Map::empty(), Seq::empty(), lower_of(kept_chars(body)))
}

/// The running aggregate for one input file.
pub struct TextItem {
    pub word_freqs: Corpus,
}

impl TextItem {
    pub fn new() -> (r: TextItem)
        ensures
            r.word_freqs.wf(),
            r.word_freqs@ == Map::<Seq<u8>, Map<Seq<u8>, u64>>::empty(),
    {
        TextItem { word_freqs: Corpus::new() }
    }

    /// Merges a reduced batch result into the running corpus.
    pub fn ingest(&mut self, other: &Corpus)
        requires
            old(self).word_freqs.wf(),
            other.wf(),
        ensures
            final(self).word_freqs.wf(),
            final(self).word_freqs@ == corpus_merge(old(self).word_freqs@, other@),
    {
        self.word_freqs.merge_from(other);
    }

    /// Tokenizes one body text into its word counts.
    pub fn process_alt(text: &str) -> (r: WordCount)
        ensures
            r.wf(),
            r@ == tokens_of(text@),
    {
        let chars = chars_of(text);
        let n = chars.len();
        let mut kept: Vec<char> = Vec::new();
        let mut i: usize = 0;
        proof {
            assert(kept_chars(chars@.take(0)) =~= Seq::<char>::empty());
            assert(kept@ =~= kept_chars(chars@.take(0)));
        }
        while i < n
            invariant
                0 <= i <= n,
                n == chars@.len(),
                kept@ == kept_chars(chars@.take(i as int)),
            decreases n - i,
        {
            let c = chars[i];
            let ghost t1 = chars@.take(i as int + 1);
            proof {
                assert(t1.drop_last() =~= chars@.take(i as int));
                assert(t1.last() == chars@[i as int]);
            }
            if char_is_alphanumeric(c) || char_is_whitespace(c) {
                kept.push(c);
                proof {
                    assert(kept@ =~= kept_chars(chars@.take(i as int)) + seq![c]);
                    assert(kept@ =~= kept_chars(t1));
                }
            } else {
                proof {
                    assert(kept_chars(t1) =~= kept_chars(chars@.take(i as int))
                        + Seq::<char>::empty());
                    assert(kept@ =~= kept_chars(t1));
                }
            }
            i = i + 1;
        }
        proof {
            assert(chars@.take(n as int) =~= chars@);
        }
        let lowered = lowercase_chars(&kept);
        let m = lowered.len();
        let mut acc = WordCount::new();
        let mut cur: Vec<char> = Vec::new();
        let mut j: usize = 0;
        proof {
            assert(lowered@.skip(0) =~= lowered@);
        }
        while j < m
            invariant
                0 <= j <= m,
                m == lowered@.len(),
                acc.wf(),
                counts_from(Map::empty(), Seq::empty(), lowered@) == counts_from(
                    acc@,
                    cur@,
                    lowered@.skip(j as int),
                ),
            decreases m - j,
        {
            let ghost rem = lowered@.skip(j as int);
            proof {
                assert(rem[0] == lowered@[j as int]);
                assert(rem.drop_first() =~= lowered@.skip(j as int + 1));
            }
            let c = lowered[j];
            if char_is_whitespace(c) {
                if cur.len() > 0 {
                    let token = chars_utf8(&cur);
                    acc.add_count(token, 1);
                    cur = Vec::new();
                } else {
                    cur = Vec::new();
                }
                proof {
                    assert(cur@ =~= Seq::<char>::empty());
                }
            } else {
                cur.push(c);
            }
            j = j + 1;
        }
        proof {
            assert(lowered@.skip(m as int) =~= Seq::<char>::empty());
        }
        if cur.len() > 0 {
            let token = chars_utf8(&cur);
            acc.add_count(token, 1);
        }
        acc
    }
}

} // verus!
