use psas_telemetry::extract::messages_of_type;
use psas_telemetry::messages::Header;
use psas_telemetry::stats::get_stats;

fn push_message(log: &mut Vec<u8>, fourcc: &[u8; 4], timestamp: u64, body: &[u8]) {
    let h = Header { fourcc: *fourcc, timestamp, size: body.len() };
    h.write(log);
    log.extend_from_slice(body);
}

#[test]
fn picks_messages_of_one_type() {
    let mut log = Vec::new();
    push_message(&mut log, b"RNHP", 100, &[1, 2]);
    push_message(&mut log, b"SEQN", 101, &[0, 0, 0, 1]);
    push_message(&mut log, b"RNHP", 102, &[3]);
    push_message(&mut log, b"FCFH", 103, &[4]);
    let found = messages_of_type(&log, b"RNHP");
    let got: Vec<(u64, Vec<u8>)> = found.iter().map(|m| (m.header.timestamp, m.body.clone())).collect();
    assert_eq!(got, vec![(100, vec![1, 2]), (102, vec![3])]);
    assert!(messages_of_type(&log, b"XXXX").is_empty());
}

#[test]
fn one_message_per_counted_one() {
    let mut log = Vec::new();
    for t in 0..5 {
        push_message(&mut log, b"RNHP", t, &[t as u8]);
        push_message(&mut log, b"FCFH", t, &[]);
    }
    push_message(&mut log, b"RNHP", 9, &[]);
    let stats = get_stats(&log);
    let code = u32::from_be_bytes(*b"RNHP");
    assert_eq!(messages_of_type(&log, b"RNHP").len() as u64, stats.message_counts[&code]);
}
