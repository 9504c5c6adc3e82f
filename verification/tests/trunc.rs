use psas_telemetry::log::split_log;
use psas_telemetry::messages::Header;
use psas_telemetry::trunc::{trunc_sequence, trunc_sequence_defined};

fn message(fourcc: &[u8; 4], timestamp: u64, body: &[u8]) -> Vec<u8> {
    let mut out = Vec::new();
    let h = Header { fourcc: *fourcc, timestamp, size: body.len() };
    h.write(&mut out);
    out.extend_from_slice(body);
    out
}

fn seqn(n: u32, timestamp: u64) -> Vec<u8> {
    message(b"SEQN", timestamp, &n.to_be_bytes())
}

fn sample() -> Vec<Vec<u8>> {
    vec![
        message(b"VERS", 1, &[1]),
        seqn(1, 2),
        message(b"RNHP", 3, &[3, 3]),
        seqn(2, 4),
        message(b"FCFH", 5, &[5]),
        message(b"RNHP", 6, &[6]),
        seqn(3, 7),
        message(b"RNHP", 8, &[8]),
    ]
}

fn join(parts: &[&Vec<u8>]) -> Vec<u8> {
    parts.iter().flat_map(|p| p.iter().cloned()).collect()
}

#[test]
fn trunc_keeps_a_closed_range() {
    let m = sample();
    let log = join(&m.iter().collect::<Vec<_>>());
    let keep: Vec<Vec<u8>> = Vec::new();
    assert!(trunc_sequence_defined(&log, 2, 2, &keep));
    let out = trunc_sequence(&log, 2, 2, &keep);
    assert_eq!(out, join(&[&m[3], &m[4], &m[5]]));
}

#[test]
fn trunc_open_range_keeps_from_first_seqn() {
    let m = sample();
    let log = join(&m.iter().collect::<Vec<_>>());
    let out = trunc_sequence(&log, -1, -1, &Vec::new());
    assert_eq!(out, join(&m[1..].iter().collect::<Vec<_>>()));
}

#[test]
fn trunc_from_a_first_seqn_to_the_end() {
    let m = sample();
    let log = join(&m.iter().collect::<Vec<_>>());
    let out = trunc_sequence(&log, 3, -1, &Vec::new());
    assert_eq!(out, join(&[&m[6], &m[7]]));
}

#[test]
fn trunc_end_zero_is_a_last_sequence_number() {
    let log = join(&[&seqn(0, 1), &seqn(5, 2)]);
    let out = trunc_sequence(&log, 0, 0, &Vec::new());
    assert_eq!(out, seqn(0, 1));
}

#[test]
fn trunc_keeplist_filters_each_once() {
    let m = sample();
    let log = join(&m.iter().collect::<Vec<_>>());
    let keep = vec![b"RNHP".to_vec(), b"XXXX".to_vec(), b"RNHP".to_vec()];
    assert!(trunc_sequence_defined(&log, 1, 2, &keep));
    let out = trunc_sequence(&log, 1, 2, &keep);
    assert_eq!(out, join(&[&m[1], &m[2], &m[3], &m[5]]));
}

#[test]
fn trunc_keeplist_entry_must_match_whole_code() {
    let m = sample();
    let log = join(&m.iter().collect::<Vec<_>>());
    let keep = vec![b"RNH".to_vec()];
    let out = trunc_sequence(&log, 1, 2, &keep);
    assert_eq!(out, join(&[&m[1], &m[3]]));
}

#[test]
fn trunc_output_reads_back_as_messages() {
    let m = sample();
    let log = join(&m.iter().collect::<Vec<_>>());
    let out = trunc_sequence(&log, 2, 3, &Vec::new());
    let (msgs, consumed) = split_log(&out);
    assert_eq!(consumed, out.len());
    let codes: Vec<[u8; 4]> = msgs.iter().map(|x| x.header.fourcc).collect();
    assert_eq!(codes, vec![*b"SEQN", *b"FCFH", *b"RNHP", *b"SEQN", *b"RNHP"]);
}

#[test]
fn trunc_undefined_on_short_seqn_body() {
    let mut log = seqn(1, 1);
    log.extend_from_slice(&message(b"SEQN", 2, &[0, 1]));
    assert!(!trunc_sequence_defined(&log, 0, -1, &Vec::new()));
}

#[test]
fn trunc_undefined_on_non_utf8_code_compared_with_keeplist() {
    let mut log = seqn(1, 1);
    log.extend_from_slice(&message(&[0xff, b'A', b'B', b'C'], 2, &[]));
    let keep = vec![b"RNHP".to_vec()];
    assert!(!trunc_sequence_defined(&log, 0, -1, &keep));
    // Without a keep-list, or outside the range, the code is never compared.
    assert!(trunc_sequence_defined(&log, 0, -1, &Vec::new()));
    assert!(trunc_sequence_defined(&log, 5, -1, &keep));
    assert_eq!(trunc_sequence(&log, 5, -1, &keep), Vec::new());
}

#[test]
fn trunc_is_idempotent() {
    let m = sample();
    let log = join(&m.iter().collect::<Vec<_>>());
    let keep = vec![b"RNHP".to_vec(), b"VERS".to_vec()];
    let once = trunc_sequence(&log, 1, 2, &keep);
    assert!(trunc_sequence_defined(&once, 1, 2, &keep));
    assert_eq!(trunc_sequence(&once, 1, 2, &keep), once);
}

#[test]
fn trunc_keeplist_filters_unfiltered_output() {
    let m = sample();
    let log = join(&m.iter().collect::<Vec<_>>());
    let all = trunc_sequence(&log, 1, -1, &Vec::new());
    let kept = trunc_sequence(&log, 1, -1, &vec![b"FCFH".to_vec()]);
    let (msgs, _) = split_log(&all);
    let mut expected = Vec::new();
    for msg in &msgs {
        if msg.header.fourcc == *b"SEQN" || msg.header.fourcc == *b"FCFH" {
            msg.header.write(&mut expected);
            expected.extend_from_slice(&msg.body);
        }
    }
    assert_eq!(kept, expected);
}

#[test]
fn trunc_ignores_incomplete_last_message() {
    let m = sample();
    let log = join(&m.iter().collect::<Vec<_>>());
    let out = trunc_sequence(&log, 0, -1, &Vec::new());
    let tail = message(b"RNHP", 9, &[1, 2, 3, 4]);
    for k in 0..tail.len() {
        let mut cut = log.clone();
        cut.extend_from_slice(&tail[..k]);
        assert_eq!(trunc_sequence(&cut, 0, -1, &Vec::new()), out);
    }
}

#[test]
fn trunc_repeated_keeplist_entry_writes_once() {
    let log = join(&[&seqn(1, 1), &message(b"ABCD", 2, &[7])]);
    let keep = vec![b"ABCD".to_vec(), b"ABCD".to_vec()];
    assert_eq!(trunc_sequence(&log, 0, -1, &keep), log);
}
