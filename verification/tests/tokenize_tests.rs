use word_freqs::text::text_item::TextItem;
use word_freqs::wordcount::WordCount;

fn entries_of(wc: &WordCount) -> Vec<(Vec<u8>, u64)> {
    wc.entries.clone()
}

#[test]
fn three_token_example() {
    let wc = TextItem::process_alt("Hello, World! 123");
    assert_eq!(
        entries_of(&wc),
        vec![
            (b"123".to_vec(), 1u64),
            (b"hello".to_vec(), 1u64),
            (b"world".to_vec(), 1u64),
        ]
    );
}

#[test]
fn punctuation_is_dropped_not_split() {
    let wc = TextItem::process_alt("a,b");
    assert_eq!(entries_of(&wc), vec![(b"ab".to_vec(), 1u64)]);
}

#[test]
fn whitespace_runs_split_tokens() {
    let wc = TextItem::process_alt("a b  a\t a\n");
    assert_eq!(
        entries_of(&wc),
        vec![(b"a".to_vec(), 3u64), (b"b".to_vec(), 1u64)]
    );
}

#[test]
fn casefolding_merges_tokens() {
    let wc = TextItem::process_alt("HeLLo HELLO hello");
    assert_eq!(entries_of(&wc), vec![(b"hello".to_vec(), 3u64)]);
}

#[test]
fn multibyte_tokens_keep_utf8_bytes() {
    let wc = TextItem::process_alt("日本 日本");
    assert_eq!(
        entries_of(&wc),
        vec![("日本".as_bytes().to_vec(), 2u64)]
    );
}

#[test]
fn empty_body_has_no_tokens() {
    let wc = TextItem::process_alt("");
    assert_eq!(entries_of(&wc), Vec::<(Vec<u8>, u64)>::new());
    let wc2 = TextItem::process_alt("  \t \n ");
    assert_eq!(entries_of(&wc2), Vec::<(Vec<u8>, u64)>::new());
}
