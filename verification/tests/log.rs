use psas_telemetry::log::{split_log, Message};
use psas_telemetry::messages::Header;

fn push_message(log: &mut Vec<u8>, fourcc: &[u8; 4], timestamp: u64, body: &[u8]) {
    let h = Header { fourcc: *fourcc, timestamp, size: body.len() };
    h.write(log);
    log.extend_from_slice(body);
}

fn views(msgs: &[Message]) -> Vec<(Header, Vec<u8>)> {
    msgs.iter().map(|m| (m.header, m.body.clone())).collect()
}

#[test]
fn split_log_reads_whole_messages() {
    let mut log = Vec::new();
    push_message(&mut log, b"SEQN", 10, &[0, 0, 0, 7]);
    push_message(&mut log, b"RNHP", 11, &[1, 2, 3]);
    push_message(&mut log, b"VERS", 12, &[]);
    let (msgs, consumed) = split_log(&log);
    assert_eq!(consumed, log.len());
    assert_eq!(
        views(&msgs),
        vec![
            (Header { fourcc: *b"SEQN", timestamp: 10, size: 4 }, vec![0, 0, 0, 7]),
            (Header { fourcc: *b"RNHP", timestamp: 11, size: 3 }, vec![1, 2, 3]),
            (Header { fourcc: *b"VERS", timestamp: 12, size: 0 }, vec![]),
        ]
    );
}

#[test]
fn split_log_stops_at_incomplete_body() {
    let mut log = Vec::new();
    push_message(&mut log, b"RNHP", 1, &[9, 9]);
    let whole = log.len();
    push_message(&mut log, b"RNHP", 2, &[1, 2, 3, 4]);
    log.truncate(log.len() - 1);
    let (msgs, consumed) = split_log(&log);
    assert_eq!(msgs.len(), 1);
    assert_eq!(consumed, whole);
}

#[test]
fn split_log_stops_at_incomplete_header() {
    let mut log = Vec::new();
    push_message(&mut log, b"RNHP", 1, &[9]);
    log.extend_from_slice(&[b'S', b'E', b'Q']);
    let (msgs, consumed) = split_log(&log);
    assert_eq!(msgs.len(), 1);
    assert_eq!(consumed, 13);
    assert_eq!(split_log(&[]).0.len(), 0);
}

#[test]
fn written_log_reads_back() {
    let mut log = Vec::new();
    let input: Vec<(Header, Vec<u8>)> = vec![
        (Header { fourcc: *b"FCFH", timestamp: 0xffff_ffff_ffff, size: 2 }, vec![5, 6]),
        (Header { fourcc: *b"SEQE", timestamp: 0, size: 0 }, vec![]),
        (Header { fourcc: *b"SEQN", timestamp: 77, size: 4 }, vec![0, 0, 1, 0]),
    ];
    for (h, body) in &input {
        h.write(&mut log);
        log.extend_from_slice(body);
    }
    let (msgs, consumed) = split_log(&log);
    assert_eq!(views(&msgs), input);
    assert_eq!(consumed, log.len());
}
