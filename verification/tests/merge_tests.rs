use word_freqs::corpus::Corpus;
use word_freqs::text::text_item::TextItem;
use word_freqs::wordcount::WordCount;

fn wc_of(pairs: &[(&[u8], u64)]) -> WordCount {
    let mut wc = WordCount::new();
    for (w, n) in pairs {
        wc.add_count(w.to_vec(), *n);
    }
    wc
}

fn flat(c: &Corpus) -> Vec<(Vec<u8>, Vec<(Vec<u8>, u64)>)> {
    c.entries
        .iter()
        .map(|e| (e.0.clone(), e.1.entries.clone()))
        .collect()
}

fn records() -> Vec<(Vec<u8>, Vec<(Vec<u8>, u64)>)> {
    vec![
        (b"bob".to_vec(), vec![(b"hi".to_vec(), 1), (b"there".to_vec(), 2)]),
        (b"alice".to_vec(), vec![(b"hi".to_vec(), 3)]),
        (b"bob".to_vec(), vec![(b"hi".to_vec(), 5)]),
        (b"carol".to_vec(), vec![(b"x".to_vec(), 1)]),
        (b"alice".to_vec(), vec![(b"bye".to_vec(), 4)]),
    ]
}

fn corpus_of_slice(rs: &[(Vec<u8>, Vec<(Vec<u8>, u64)>)]) -> Corpus {
    let mut c = Corpus::new();
    for (a, pairs) in rs {
        let mut wc = WordCount::new();
        for (w, n) in pairs {
            wc.add_count(w.clone(), *n);
        }
        c.add_counts(a.clone(), wc);
    }
    c
}

#[test]
fn merge_invariant_under_batching() {
    let rs = records();
    let whole = corpus_of_slice(&rs);
    // Two different partitions into batches, merged in order.
    for split in [1usize, 2, 3, 4] {
        let mut left = corpus_of_slice(&rs[..split]);
        let right = corpus_of_slice(&rs[split..]);
        left.merge_from(&right);
        assert_eq!(flat(&left), flat(&whole));
    }
}

#[test]
fn merge_commutes() {
    let rs = records();
    let a = corpus_of_slice(&rs[..2]);
    let b = corpus_of_slice(&rs[2..]);
    let mut ab = corpus_of_slice(&rs[..2]);
    ab.merge_from(&b);
    let mut ba = corpus_of_slice(&rs[2..]);
    ba.merge_from(&a);
    assert_eq!(flat(&ab), flat(&ba));
}

#[test]
fn equal_corpora_encode_identically() {
    // The same logical content built in two different orders yields the
    // same entry order and byte-identical encodings.
    let mut a = Corpus::new();
    a.add_counts(b"bob".to_vec(), wc_of(&[(b"hi", 1)]));
    a.add_counts(b"alice".to_vec(), wc_of(&[(b"z", 2), (b"a", 3)]));
    let mut b = Corpus::new();
    b.add_counts(b"alice".to_vec(), wc_of(&[(b"a", 3)]));
    b.add_counts(b"bob".to_vec(), wc_of(&[(b"hi", 1)]));
    b.add_counts(b"alice".to_vec(), wc_of(&[(b"z", 2)]));
    assert_eq!(flat(&a), flat(&b));
    assert_eq!(a.encode(), b.encode());
}

#[test]
fn counts_saturate_never_wrap() {
    let mut wc = WordCount::new();
    wc.add_count(b"w".to_vec(), u64::MAX - 1);
    wc.add_count(b"w".to_vec(), 5);
    assert_eq!(wc.entries, vec![(b"w".to_vec(), u64::MAX)]);
    wc.add_count(b"w".to_vec(), 1);
    assert_eq!(wc.entries, vec![(b"w".to_vec(), u64::MAX)]);
}

#[test]
fn ingest_accumulates_batches() {
    let rs = records();
    let mut ti = TextItem::new();
    ti.ingest(&corpus_of_slice(&rs[..3]));
    ti.ingest(&corpus_of_slice(&rs[3..]));
    let whole = corpus_of_slice(&rs);
    assert_eq!(flat(&ti.word_freqs), flat(&whole));
    assert_eq!(
        flat(&ti.word_freqs),
        vec![
            (
                b"alice".to_vec(),
                vec![(b"bye".to_vec(), 4u64), (b"hi".to_vec(), 3u64)]
            ),
            (
                b"bob".to_vec(),
                vec![(b"hi".to_vec(), 6u64), (b"there".to_vec(), 2u64)]
            ),
            (b"carol".to_vec(), vec![(b"x".to_vec(), 1u64)]),
        ]
    );
}
