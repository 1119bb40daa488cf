use word_freqs::codec::{decode_corpus, CodecError};
use word_freqs::corpus::Corpus;
use word_freqs::wordcount::WordCount;

fn wc_of(pairs: &[(&[u8], u64)]) -> WordCount {
    let mut wc = WordCount::new();
    for (w, n) in pairs {
        wc.add_count(w.to_vec(), *n);
    }
    wc
}

fn corpus_of(authors: &[(&[u8], &[(&[u8], u64)])]) -> Corpus {
    let mut c = Corpus::new();
    for (a, pairs) in authors {
        c.add_counts(a.to_vec(), wc_of(pairs));
    }
    c
}

fn flat(c: &Corpus) -> Vec<(Vec<u8>, Vec<(Vec<u8>, u64)>)> {
    c.entries
        .iter()
        .map(|e| (e.0.clone(), e.1.entries.clone()))
        .collect()
}

#[test]
fn empty_corpus_round_trip() {
    let c = Corpus::new();
    let bytes = c.encode();
    assert_eq!(bytes, vec![0u8; 8]);
    let back = decode_corpus(&bytes).unwrap();
    assert_eq!(flat(&back), flat(&c));
}

#[test]
fn single_entry_exact_bytes() {
    let c = corpus_of(&[(b"a", &[(b"b", 7)])]);
    let mut expect: Vec<u8> = Vec::new();
    expect.extend_from_slice(&1u64.to_le_bytes()); // one author
    expect.extend_from_slice(&1u64.to_le_bytes()); // author length
    expect.push(b'a');
    expect.extend_from_slice(&1u64.to_le_bytes()); // one word entry
    expect.extend_from_slice(&1u64.to_le_bytes()); // word length
    expect.push(b'b');
    expect.extend_from_slice(&7u64.to_le_bytes()); // count
    assert_eq!(c.encode(), expect);
}

#[test]
fn round_trip_non_utf8_keys_and_large_counts() {
    let c = corpus_of(&[
        (&[0xffu8, 0xfe, 0x00][..], &[(&[0x80u8][..], u64::MAX), (b"z", u64::MAX - 1)]),
        (b"alice", &[(b"", 1), (b"hi", 2)]),
    ]);
    let bytes = c.encode();
    let back = decode_corpus(&bytes).unwrap();
    assert_eq!(flat(&back), flat(&c));
}

#[test]
fn decode_truncated_is_error() {
    let c = corpus_of(&[(b"a", &[(b"b", 7)])]);
    let bytes = c.encode();
    for cut in 0..bytes.len() {
        let r = decode_corpus(&bytes[..cut]);
        assert!(matches!(r, Err(CodecError::Malformed)));
    }
}

#[test]
fn decode_trailing_bytes_is_error() {
    let c = corpus_of(&[(b"a", &[(b"b", 7)])]);
    let mut bytes = c.encode();
    bytes.push(0);
    assert!(decode_corpus(&bytes).is_err());
}

#[test]
fn decode_out_of_order_authors_is_error() {
    // Two authors written in descending order: structurally invalid.
    let mut bytes: Vec<u8> = Vec::new();
    bytes.extend_from_slice(&2u64.to_le_bytes());
    for a in [b"b", b"a"] {
        bytes.extend_from_slice(&1u64.to_le_bytes());
        bytes.extend_from_slice(&a[..]);
        bytes.extend_from_slice(&0u64.to_le_bytes());
    }
    assert!(decode_corpus(&bytes).is_err());
}

#[test]
fn decode_repeated_word_is_error() {
    let mut bytes: Vec<u8> = Vec::new();
    bytes.extend_from_slice(&1u64.to_le_bytes());
    bytes.extend_from_slice(&1u64.to_le_bytes());
    bytes.push(b'a');
    bytes.extend_from_slice(&2u64.to_le_bytes());
    for _ in 0..2 {
        bytes.extend_from_slice(&1u64.to_le_bytes());
        bytes.push(b'w');
        bytes.extend_from_slice(&1u64.to_le_bytes());
    }
    assert!(decode_corpus(&bytes).is_err());
}

#[test]
fn migration_pass_through_preserves_triples() {
    // Decode an existing stream, re-encode it unmodified, decode again:
    // the author/word/count triples survive.
    let c = corpus_of(&[(b"a", &[(b"x", 3)]), (b"b", &[(b"y", u64::MAX)])]);
    let bytes = c.encode();
    let decoded = decode_corpus(&bytes).unwrap();
    let re_encoded = decoded.encode();
    let again = decode_corpus(&re_encoded).unwrap();
    assert_eq!(flat(&again), flat(&decoded));
    assert_eq!(flat(&again), flat(&c));
}
