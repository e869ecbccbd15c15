use minidialer::scanner::{fragment_stream, ScanOutcome, Scanner};

#[test]
fn test_split_begin() {
    let buffers = vec![b"www.speedtest.net.example.com".to_vec()];
    let (uploaded, _) = fragment_stream(b"www.speedtest.net", &buffers);
    assert_eq!(
        uploaded,
        vec![b"www.speedtest.net".to_vec(), b".example.com".to_vec()]
    );
}

#[test]
fn test_split_middle() {
    let buffers = vec![b"Host: www.speedtest.net.example.com".to_vec()];
    let (uploaded, _) = fragment_stream(b"www.speedtest.net", &buffers);
    assert_eq!(
        uploaded,
        vec![b"Host: www.speedtest.net".to_vec(), b".example.com".to_vec()]
    );
}

#[test]
fn test_split_partial_end() {
    let buffers = vec![b"Host: www.speedtes".to_vec()];
    let (uploaded, sleep_count) = fragment_stream(b"www.speedtest.net", &buffers);
    assert_eq!(uploaded, vec![b"Host: www.speedtes".to_vec()]);
    assert_eq!(sleep_count, 0);
}

#[test]
fn test_split_partial_end2() {
    let buffers = vec![b"Host: www.speedtes".to_vec(), b"t.net.example.com".to_vec()];
    let (uploaded, sleep_count) = fragment_stream(b"www.speedtest.net", &buffers);
    assert_eq!(
        uploaded,
        vec![
            b"Host: www.speedtes".to_vec(),
            b"t.net".to_vec(),
            b".example.com".to_vec(),
        ]
    );
    assert_eq!(sleep_count, 1);
}

#[test]
fn test_split_three() {
    let buffers = vec![
        b"Host: www.".to_vec(),
        b"speedtes".to_vec(),
        b"t.net.example.com".to_vec(),
    ];
    let (uploaded, sleep_count) = fragment_stream(b"www.speedtest.net", &buffers);
    assert_eq!(
        uploaded,
        vec![
            b"Host: www.".to_vec(),
            b"speedtes".to_vec(),
            b"t.net".to_vec(),
            b".example.com".to_vec(),
        ]
    );
    assert_eq!(sleep_count, 1);
}

#[test]
fn no_match_passes_through() {
    let buffers = vec![b"hello world".to_vec(), b"more data".to_vec()];
    let (uploaded, sleep_count) = fragment_stream(b"www.speedtest.net", &buffers);
    assert_eq!(uploaded, vec![b"hello world".to_vec(), b"more data".to_vec()]);
    assert_eq!(sleep_count, 0);
}

#[test]
fn two_occurrences_in_separate_buffers() {
    let buffers = vec![b"xxabyy".to_vec(), b"zzabww".to_vec()];
    let (uploaded, sleep_count) = fragment_stream(b"ab", &buffers);
    assert_eq!(
        uploaded,
        vec![
            b"xxab".to_vec(),
            b"yy".to_vec(),
            b"zzab".to_vec(),
            b"ww".to_vec(),
        ]
    );
    assert_eq!(sleep_count, 2);
}

#[test]
fn abandoned_prefix_is_not_rescanned() {
    // After committing to the prefix "aa", the scanner does not reconsider
    // the occurrence of "aab" that starts one byte later: an accepted miss.
    let buffers = vec![b"aa".to_vec(), b"ab".to_vec()];
    let (uploaded, sleep_count) = fragment_stream(b"aab", &buffers);
    assert_eq!(uploaded, vec![b"aa".to_vec(), b"ab".to_vec()]);
    assert_eq!(sleep_count, 0);
}

#[test]
fn match_completed_exactly_at_buffer_end() {
    let buffers = vec![b"Host: www.speedtest.net".to_vec(), b".example.com".to_vec()];
    let (uploaded, sleep_count) = fragment_stream(b"www.speedtest.net", &buffers);
    assert_eq!(
        uploaded,
        vec![b"Host: www.speedtest.net".to_vec(), b".example.com".to_vec()]
    );
    assert_eq!(sleep_count, 1);
}

#[test]
fn scanner_reports_split_pieces() {
    let mut scanner = Scanner::new(b"ab".to_vec());
    match scanner.scan(b"xxabyy") {
        ScanOutcome::Split { head, tail } => {
            assert_eq!(head, b"xxab".to_vec());
            assert_eq!(tail, b"yy".to_vec());
        }
        ScanOutcome::NoSplit { .. } => panic!("expected a split"),
    }
    match scanner.scan(b"no pattern here") {
        ScanOutcome::NoSplit { data } => assert_eq!(data, b"no pattern here".to_vec()),
        ScanOutcome::Split { .. } => panic!("expected no split"),
    }
}

#[test]
fn single_byte_pattern() {
    let buffers = vec![b"a.b".to_vec()];
    let (uploaded, sleep_count) = fragment_stream(b".", &buffers);
    assert_eq!(uploaded, vec![b"a.".to_vec(), b"b".to_vec()]);
    assert_eq!(sleep_count, 1);
}
