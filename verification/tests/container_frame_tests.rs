use word_freqs::container::{corpus_file_bytes, corpus_from_file_bytes};
use word_freqs::corpus::Corpus;
use word_freqs::frame::{find_delim, read_until};
use word_freqs::wordcount::WordCount;

fn flat(c: &Corpus) -> Vec<(Vec<u8>, Vec<(Vec<u8>, u64)>)> {
    c.entries
        .iter()
        .map(|e| (e.0.clone(), e.1.entries.clone()))
        .collect()
}

#[test]
fn container_round_trip() {
    let mut c = Corpus::new();
    let mut wc = WordCount::new();
    wc.add_count(b"hi".to_vec(), 2);
    c.add_counts(b"alice".to_vec(), wc);
    let file = corpus_file_bytes(&c).unwrap();
    // The container is a real compression frame, not the raw stream.
    assert_ne!(file, c.encode());
    let back = corpus_from_file_bytes(&file).unwrap();
    assert_eq!(flat(&back), flat(&c));
}

#[test]
fn container_rejects_garbage() {
    assert!(corpus_from_file_bytes(b"not a container").is_err());
}

#[test]
fn find_delim_first_occurrence() {
    assert_eq!(find_delim(b"abc\ndef\n", b'\n'), Some(3));
    assert_eq!(find_delim(b"abc", b'\n'), None);
    assert_eq!(find_delim(b"", b'\n'), None);
}

#[test]
fn read_until_splits_frames() {
    let src = b"one\ntwo\nthree";
    let mut buf: Vec<u8> = Vec::new();
    let r1 = read_until(src, 0, b'\n', &mut buf);
    assert_eq!(r1, 4);
    assert_eq!(buf, b"one\n".to_vec());
    let mut buf2: Vec<u8> = Vec::new();
    let r2 = read_until(src, 4, b'\n', &mut buf2);
    assert_eq!(r2, 4);
    assert_eq!(buf2, b"two\n".to_vec());
    let mut buf3: Vec<u8> = Vec::new();
    let r3 = read_until(src, 8, b'\n', &mut buf3);
    assert_eq!(r3, 5);
    assert_eq!(buf3, b"three".to_vec());
    let mut buf4: Vec<u8> = Vec::new();
    let r4 = read_until(src, 13, b'\n', &mut buf4);
    assert_eq!(r4, 0);
    assert!(buf4.is_empty());
}
