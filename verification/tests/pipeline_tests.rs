use word_freqs::pipeline::{Driver, LineOutcome, TakeOutcome};
use word_freqs::record::decode_record;

fn line(s: &str) -> Vec<u8> {
    s.as_bytes().to_vec()
}

fn flat(d: &Driver) -> Vec<(Vec<u8>, Vec<(Vec<u8>, u64)>)> {
    d.item
        .word_freqs
        .entries
        .iter()
        .map(|e| (e.0.clone(), e.1.entries.clone()))
        .collect()
}

#[test]
fn valid_records_aggregate() {
    let mut d = Driver::new();
    let r1 = d.accept_line(&line("{\"author\":\"alice\",\"body\":\"Hello, World! 123\"}"));
    assert!(matches!(r1, LineOutcome::Accepted));
    let r2 = d.accept_line(&line("{\"author\":\"alice\",\"body\":\"hello\"}"));
    assert!(matches!(r2, LineOutcome::Accepted));
    assert_eq!(
        flat(&d),
        vec![(
            b"alice".to_vec(),
            vec![
                (b"123".to_vec(), 1u64),
                (b"hello".to_vec(), 2u64),
                (b"world".to_vec(), 1u64),
            ]
        )]
    );
    assert_eq!(d.err_cnt, 0);
    assert!(!d.stopped);
}

#[test]
fn extra_fields_ignored_missing_fields_rejected() {
    assert!(decode_record(b"{\"author\":\"a\",\"body\":\"b\",\"score\":3}").is_some());
    assert!(decode_record(b"{\"author\":\"a\"}").is_none());
    assert!(decode_record(b"{\"body\":\"b\"}").is_none());
    assert!(decode_record(b"").is_none());
    assert!(decode_record(b"not json").is_none());
    assert!(decode_record(b"{\"author\":7,\"body\":\"b\"}").is_none());
}

#[test]
fn error_budget_stops_after_threshold() {
    let mut d = Driver::new();
    let good = line("{\"author\":\"a\",\"body\":\"one two\"}");
    assert!(matches!(d.accept_line(&good), LineOutcome::Accepted));
    let after_good = flat(&d);
    // Ten soft failures stay within the budget.
    for _ in 0..10 {
        let r = d.accept_line(&line(""));
        assert!(matches!(r, LineOutcome::SoftError));
    }
    assert!(!d.stopped);
    // The eleventh crosses it.
    let r = d.accept_line(&line(""));
    assert!(matches!(r, LineOutcome::Stopped));
    assert!(d.stopped);
    assert_eq!(d.err_cnt, 11);
    // Later lines, even valid ones, change nothing.
    let r2 = d.accept_line(&good);
    assert!(matches!(r2, LineOutcome::Stopped));
    assert_eq!(flat(&d), after_good);
}

#[test]
fn take_line_decodes_without_aggregating() {
    let mut d = Driver::new();
    let r = d.take_line(&line("{\"author\":\"a\",\"body\":\"x\"}"));
    match r {
        TakeOutcome::Record(c) => {
            assert_eq!(c.author, "a");
            assert_eq!(c.body, "x");
        },
        _ => panic!("expected a record"),
    }
    assert!(flat(&d).is_empty());
    let r2 = d.take_line(&line("oops"));
    assert!(matches!(r2, TakeOutcome::SoftError));
    assert_eq!(d.err_cnt, 1);
}
