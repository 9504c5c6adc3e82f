use psas_telemetry::messages::Header;
use psas_telemetry::stats::{get_stats, seqn_messages_readable};

fn push_message(log: &mut Vec<u8>, fourcc: &[u8; 4], body: &[u8]) {
    let h = Header { fourcc: *fourcc, timestamp: 5, size: body.len() };
    h.write(log);
    log.extend_from_slice(body);
}

fn code(fourcc: &[u8; 4]) -> u32 {
    u32::from_be_bytes(*fourcc)
}

fn sample_log() -> Vec<u8> {
    let mut log = Vec::new();
    push_message(&mut log, b"VERS", &[1, 2]);
    push_message(&mut log, b"SEQN", &[0, 0, 0, 3]);
    push_message(&mut log, b"RNHP", &[1, 2, 3, 4, 5, 6]);
    push_message(&mut log, b"RNHP", &[7]);
    push_message(&mut log, b"SEQN", &[0, 0, 0, 4]);
    push_message(&mut log, b"FCFH", &[]);
    push_message(&mut log, b"SEQN", &[0, 0, 1, 0, 0xff]);
    push_message(&mut log, b"RNHP", &[]);
    log
}

#[test]
fn stats_of_a_log() {
    let log = sample_log();
    assert!(seqn_messages_readable(&log));
    let stats = get_stats(&log);
    assert_eq!(stats.n_seqn, 3);
    assert_eq!(stats.first_seqn, 3);
    assert_eq!(stats.last_seqn, 256);
    assert_eq!(stats.n_messages, 5);
    assert_eq!(stats.n_bytes, log.len() as u64);
    assert_eq!(stats.message_counts.len(), 3);
    assert_eq!(stats.message_counts.get(&code(b"RNHP")), Some(&3));
    assert_eq!(stats.message_counts.get(&code(b"VERS")), Some(&1));
    assert_eq!(stats.message_counts.get(&code(b"FCFH")), Some(&1));
    assert_eq!(stats.message_counts.get(&code(b"SEQN")), None);
}

#[test]
fn stats_count_header_of_incomplete_message() {
    let mut log = sample_log();
    let whole = log.len();
    push_message(&mut log, b"RNHP", &[1, 2, 3]);
    log.truncate(log.len() - 1);
    let stats = get_stats(&log);
    assert_eq!(stats.n_bytes, (whole + 12) as u64);
    assert_eq!(stats.n_messages, 5);
    assert_eq!(stats.message_counts.get(&code(b"RNHP")), Some(&3));
}

#[test]
fn stats_ignore_partial_header() {
    let mut log = sample_log();
    let whole = log.len();
    log.extend_from_slice(&[1, 2, 3, 4, 5, 6, 7, 8, 9, 10, 11]);
    let stats = get_stats(&log);
    assert_eq!(stats.n_bytes, whole as u64);
}

#[test]
fn stats_of_empty_log() {
    let stats = get_stats(&[]);
    assert_eq!(stats.n_seqn, 0);
    assert_eq!(stats.first_seqn, 0);
    assert_eq!(stats.last_seqn, 0);
    assert_eq!(stats.n_bytes, 0);
    assert_eq!(stats.n_messages, 0);
    assert!(stats.message_counts.is_empty());
}

#[test]
fn stats_without_seqn() {
    let mut log = Vec::new();
    push_message(&mut log, b"RNHH", &[0; 20]);
    let stats = get_stats(&log);
    assert_eq!(stats.n_seqn, 0);
    assert_eq!(stats.first_seqn, 0);
    assert_eq!(stats.n_messages, 1);
    assert_eq!(stats.n_bytes, 32);
}

#[test]
fn short_seqn_body_is_not_readable() {
    let mut log = sample_log();
    push_message(&mut log, b"SEQN", &[0, 0, 1]);
    assert!(!seqn_messages_readable(&log));
}

#[test]
fn stats_of_joined_logs_add_up() {
    let a = sample_log();
    let mut b = Vec::new();
    push_message(&mut b, b"SEQN", &[0, 0, 0, 9]);
    push_message(&mut b, b"VERS", &[0]);
    push_message(&mut b, b"RNHP", &[1, 2]);
    b.truncate(b.len() - 1);
    let mut ab = a.clone();
    ab.extend_from_slice(&b);
    let (sa, sb, s) = (get_stats(&a), get_stats(&b), get_stats(&ab));
    assert_eq!(s.n_seqn, sa.n_seqn + sb.n_seqn);
    assert_eq!(s.n_messages, sa.n_messages + sb.n_messages);
    assert_eq!(s.n_bytes, sa.n_bytes + sb.n_bytes);
    assert_eq!(s.first_seqn, sa.first_seqn);
    assert_eq!(s.last_seqn, sb.last_seqn);
    for c in [code(b"RNHP"), code(b"VERS"), code(b"FCFH")] {
        let cnt = |x: &psas_telemetry::stats::Stats| x.message_counts.get(&c).copied().unwrap_or(0);
        assert_eq!(cnt(&s), cnt(&sa) + cnt(&sb));
    }
}

#[test]
fn stats_counts_add_up_and_bound_bytes() {
    let log = sample_log();
    let stats = get_stats(&log);
    let total: u64 = stats.message_counts.values().sum();
    assert_eq!(total, stats.n_messages);
    assert!(stats.n_bytes >= 16 * stats.n_seqn + 12 * stats.n_messages);
}
