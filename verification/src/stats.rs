//! Statistics about the messages of a telemetry log.

use crate::log::{
    lemma_log_bytes_push, lemma_log_messages_reencode, lemma_log_roundtrip, log_bytes,
    log_consumed, log_messages,
    message_fits, messages_view, split_log,
};
use crate::messages::{
    is_seqn, lemma_header_bytes_len, read_seqn_body, seqn_of_body, Header, SIZE_OF_HEADER,
};
use crate::wire::{be_u32, read_be_u32};
use std::collections::HashMap;
use vstd::multiset::Multiset;
use vstd::prelude::*;

verus! {

broadcast use vstd::std_specs::hash::group_hash_axioms;

/// Statistics about a set of telemetry messages
pub struct Stats {
    /// Number of `SEQN` (sequence number) encountered
    pub n_seqn: u64,
    /// The value of the first `SEQN` (sequence number) encountered
    pub first_seqn: u32,
    /// The value of the last `SEQN` (sequence number) encountered
    pub last_seqn: u32,
    /// Total number or bytes successfully read including unknown messages
    pub n_bytes: u64,
    /// Total number of messages encountered
    pub n_messages: u64,
    /// The number of messages encountered, keyed by their four character code
    /// read as a big-endian `u32` (see `fourcc_code`)
    pub message_counts: HashMap<u32, u64>,
}

/// A four character code as a number: its four bytes read big-endian.
pub open spec fn fourcc_code(fourcc: [u8; 4]) -> u32 {
    be_u32(fourcc@)
}

/// The number of the four character code `SEQN`.
pub open spec fn seqn_code() -> u32 {
    0x5345_514e
}

/// The sequence numbers of the `SEQN` messages among `msgs`, in order.
pub open spec fn seqn_values(msgs: Seq<(Header, Seq<u8>)>) -> Seq<u32>
    decreases msgs.len(),
{
    if msgs.len() == 0 {
        Seq::empty()
    } else {
        let before = seqn_values(msgs.drop_last());
        if is_seqn(msgs.last().0.fourcc) {
            before.push(seqn_of_body(msgs.last().1))
        } else {
            before
        }
    }
}

/// The number of messages among `msgs` whose four character code has the number `code`.
pub open spec fn count_code(msgs: Seq<(Header, Seq<u8>)>, code: u32) -> nat
    decreases msgs.len(),
{
    if msgs.len() == 0 {
        0
    } else {
        count_code(msgs.drop_last(), code) + if fourcc_code(msgs.last().0.fourcc) == code {
            1nat
        } else {
            0nat
        }
    }
}

/// Every `SEQN` message among `msgs` has a body long enough to hold a sequence number.
pub open spec fn seqn_bodies_readable(msgs: Seq<(Header, Seq<u8>)>) -> bool {
    forall|i: int|
        0 <= i < msgs.len() && is_seqn(#[trigger] msgs[i].0.fourcc) ==> msgs[i].1.len() >= 4
}

/// The count of each four character code other than `SEQN` that occurs among `msgs`.
pub open spec fn message_counts_of(msgs: Seq<(Header, Seq<u8>)>) -> Map<u32, u64> {
    Map::new(
        |code: u32| code != seqn_code() && count_code(msgs, code) > 0,
        |code: u32| count_code(msgs, code) as u64,
    )
}

/// The number of bytes that reading `log` message by message gets through:
/// its complete messages, and the header of an incomplete last message when
/// that header is whole.
pub open spec fn bytes_read(log: Seq<u8>) -> int {
    let consumed = log_consumed(log);
    if log.len() - consumed >= SIZE_OF_HEADER {
        consumed + SIZE_OF_HEADER
    } else {
        consumed as int
    }
}

/// Two four character codes with the same number are the same code, and
/// the number of `SEQN` is `seqn_code()`.
pub proof fn lemma_fourcc_code_injective(a: [u8; 4], b: [u8; 4])
    ensures
        fourcc_code(a) == fourcc_code(b) <==> a@ == b@,
        fourcc_code(a) == seqn_code() <==> is_seqn(a),
{
    let (a0, a1, a2, a3) = (a[0], a[1], a[2], a[3]);
    let (b0, b1, b2, b3) = (b[0], b[1], b[2], b[3]);
    assert(((a0 as u32) << 24u32) | ((a1 as u32) << 16u32) | ((a2 as u32) << 8u32) | (a3 as u32)
        == ((b0 as u32) << 24u32) | ((b1 as u32) << 16u32) | ((b2 as u32) << 8u32) | (b3 as u32)
        ==> a0 == b0 && a1 == b1 && a2 == b2 && a3 == b3) by (bit_vector);
    assert(((a0 as u32) << 24u32) | ((a1 as u32) << 16u32) | ((a2 as u32) << 8u32) | (a3 as u32)
        == 0x5345_514e <==> a0 == 0x53 && a1 == 0x45 && a2 == 0x51 && a3 == 0x4e) by (bit_vector);
    if fourcc_code(a) == fourcc_code(b) {
        assert(a@ =~= b@);
    }
}

/// No code is counted more often than there are messages.
pub proof fn lemma_count_code_bound(msgs: Seq<(Header, Seq<u8>)>, code: u32)
    ensures
        count_code(msgs, code) <= msgs.len(),
    decreases msgs.len(),
{
    if msgs.len() > 0 {
        lemma_count_code_bound(msgs.drop_last(), code);
    }
}

/// There are never more sequence numbers than messages, so the `SEQN`
/// messages and the others split the complete messages of a log between them.
pub proof fn lemma_seqn_values_bound(msgs: Seq<(Header, Seq<u8>)>)
    ensures
        seqn_values(msgs).len() <= msgs.len(),
    decreases msgs.len(),
{
    if msgs.len() > 0 {
        lemma_seqn_values_bound(msgs.drop_last());
    }
}

/// Whether `fourcc` is the code of the sequence number message.
pub(crate) fn fourcc_is_seqn(fourcc: &[u8; 4]) -> (r: bool)
    ensures
        r == is_seqn(*fourcc),
{
    fourcc[0] == 0x53 && fourcc[1] == 0x45 && fourcc[2] == 0x51 && fourcc[3] == 0x4e
}

/// Whether every `SEQN` message of the log has a body long enough to hold a
/// sequence number, which `get_stats` needs.
pub fn seqn_messages_readable(log: &[u8]) -> (r: bool)
    ensures
        r == seqn_bodies_readable(log_messages(log@)),
{
    let (messages, _) = split_log(log);
    let ghost msgs = messages_view(messages@);
    let mut i: usize = 0;
    while i < messages.len()
        invariant
            i <= messages@.len(),
            msgs == messages_view(messages@),
            msgs == log_messages(log@),
            forall|j: int|
                0 <= j < i && is_seqn(#[trigger] msgs[j].0.fourcc) ==> msgs[j].1.len() >= 4,
        decreases messages@.len() - i,
    {
        let m = &messages[i];
        assert(msgs[i as int] == m@);
        if fourcc_is_seqn(&m.header.fourcc) && m.body.len() < 4 {
            assert(is_seqn(msgs[i as int].0.fourcc) && msgs[i as int].1.len() < 4);
            return false;
        }
        i = i + 1;
    }
    true
}

/// Collects statistics about the messages of a log: how many `SEQN`
/// messages it holds and the first and last of their sequence numbers, how
/// many bytes reading it gets through, and how many other messages it holds,
/// in all and for each four character code.
pub fn get_stats(log: &[u8]) -> (r: Stats)
    requires
        seqn_bodies_readable(log_messages(log@)),
    ensures
        ({
            let msgs = log_messages(log@);
            let seqns = seqn_values(msgs);
            &&& r.n_seqn == seqns.len()
            &&& r.first_seqn == if seqns.len() > 0 { seqns[0] } else { 0 }
            &&& r.last_seqn == if seqns.len() > 0 { seqns.last() } else { 0 }
            &&& r.n_messages == msgs.len() - seqns.len()
            &&& r.n_bytes == bytes_read(log@)
            &&& r.message_counts@ == message_counts_of(msgs)
        }),
        forall|i: int|
            0 <= i < log_messages(log@).len() && is_seqn(
                #[trigger] log_messages(log@)[i].0.fourcc,
            ) ==> {
                let b = log_messages(log@)[i].1;
                let v = b[0] * 0x100_0000 + b[1] * 0x1_0000 + b[2] * 0x100 + b[3];
                &&& (forall|l: int|
                    0 <= l < i ==> !is_seqn(#[trigger] log_messages(log@)[l].0.fourcc))
                    ==> r.first_seqn as int == v
                &&& (forall|l: int|
                    i < l < log_messages(log@).len() ==> !is_seqn(
                        #[trigger] log_messages(log@)[l].0.fourcc,
                    )) ==> r.last_seqn as int == v
            },
{
    let (messages, consumed) = split_log(log);
    let ghost msgs = messages_view(messages@);
    proof {
        lemma_log_messages_reencode(log@);
    }
    let n_bytes: usize = if log.len() - consumed >= SIZE_OF_HEADER {
        consumed + SIZE_OF_HEADER
    } else {
        consumed
    };
    let mut stats = Stats {
        n_seqn: 0,
        first_seqn: 0,
        last_seqn: 0,
        n_bytes: n_bytes as u64,
        n_messages: 0,
        message_counts: HashMap::new(),
    };
    let mut i: usize = 0;
    assert(msgs.take(0) =~= Seq::<(Header, Seq<u8>)>::empty());
    while i < messages.len()
        invariant
            i <= messages@.len(),
            msgs == messages_view(messages@),
            msgs == log_messages(log@),
            seqn_bodies_readable(msgs),
            stats.n_bytes == bytes_read(log@),
            ({
                let done = msgs.take(i as int);
                let seqns = seqn_values(done);
                &&& stats.n_seqn == seqns.len()
                &&& stats.first_seqn == if seqns.len() > 0 { seqns[0] } else { 0 }
                &&& stats.last_seqn == if seqns.len() > 0 { seqns.last() } else { 0 }
                &&& stats.n_messages == done.len() - seqns.len()
                &&& stats.message_counts@ == message_counts_of(done)
            }),
        decreases messages@.len() - i,
    {
        let m = &messages[i];
        let ghost done = msgs.take(i as int);
        let ghost next = msgs.take(i + 1);
        proof {
            assert(msgs[i as int] == m@);
            assert(next.drop_last() =~= done);
            assert(next.last() == m@);
            lemma_seqn_values_bound(done);
        }
        if fourcc_is_seqn(&m.header.fourcc) {
            assert(is_seqn(msgs[i as int].0.fourcc));
            let seqn = read_seqn_body(&m.body);
            stats.n_seqn = stats.n_seqn + 1;
            if stats.n_seqn == 1 {
                stats.first_seqn = seqn;
            }
            stats.last_seqn = seqn;
            proof {
                lemma_fourcc_code_injective(m.header.fourcc, m.header.fourcc);
                assert forall|code: u32| #[trigger] count_code(next, code) == count_code(done, code)
                    || code == seqn_code() by {}
                assert(stats.message_counts@ =~= message_counts_of(next));
            }
        } else {
            stats.n_messages = stats.n_messages + 1;
            let code = read_be_u32(m.header.fourcc.as_slice());
            proof {
                lemma_count_code_bound(done, code);
                lemma_fourcc_code_injective(m.header.fourcc, m.header.fourcc);
            }
            let count: u64 = match stats.message_counts.get(&code) {
                Some(n) => *n,
                None => 0,
            };
            stats.message_counts.insert(code, count + 1);
            proof {
                assert(stats.message_counts@ =~= message_counts_of(next));
            }
        }
        i = i + 1;
    }
    assert(msgs.take(messages@.len() as int) =~= msgs);
    proof {
        assert forall|i: int|
            0 <= i < msgs.len() && is_seqn(#[trigger] msgs[i].0.fourcc) implies {
            let b = msgs[i].1;
            let v = b[0] * 0x100_0000 + b[1] * 0x1_0000 + b[2] * 0x100 + b[3];
            &&& (forall|l: int| 0 <= l < i ==> !is_seqn(#[trigger] msgs[l].0.fourcc))
                ==> stats.first_seqn as int == v
            &&& (forall|l: int| i < l < msgs.len() ==> !is_seqn(#[trigger] msgs[l].0.fourcc))
                ==> stats.last_seqn as int == v
        } by {
            lemma_first_and_last_seqn(msgs, i);
        }
    }
    stats
}

/// Reading a log never gets through more bytes than it has, nor fewer than
/// its complete messages take.
pub proof fn lemma_bytes_read_bounds(log: Seq<u8>)
    ensures
        log_consumed(log) <= bytes_read(log) <= log.len(),
{
    lemma_log_messages_reencode(log);
}

/// A log made of whole messages that fit is read to its last byte.
pub proof fn lemma_whole_log_read_to_end(msgs: Seq<(Header, Seq<u8>)>)
    requires
        forall|i: int| 0 <= i < msgs.len() ==> message_fits(#[trigger] msgs[i]),
    ensures
        bytes_read(log_bytes(msgs)) == log_bytes(msgs).len(),
{
    lemma_log_roundtrip(msgs);
}

/// The codes of the messages among `msgs` other than `SEQN`, as a multiset.
pub open spec fn other_codes(msgs: Seq<(Header, Seq<u8>)>) -> Multiset<u32>
    decreases msgs.len(),
{
    if msgs.len() == 0 {
        Multiset::empty()
    } else {
        let before = other_codes(msgs.drop_last());
        if is_seqn(msgs.last().0.fourcc) {
            before
        } else {
            before.insert(fourcc_code(msgs.last().0.fourcc))
        }
    }
}

/// Whether a message is a `SEQN` message.
pub open spec fn seqn_message() -> spec_fn((Header, Seq<u8>)) -> bool {
    |m: (Header, Seq<u8>)| is_seqn(m.0.fourcc)
}

/// Whether a message is not a `SEQN` message.
pub open spec fn other_message() -> spec_fn((Header, Seq<u8>)) -> bool {
    |m: (Header, Seq<u8>)| !is_seqn(m.0.fourcc)
}

/// Whether a message's code has the number `code`.
pub open spec fn has_code(code: u32) -> spec_fn((Header, Seq<u8>)) -> bool {
    |m: (Header, Seq<u8>)| fourcc_code(m.0.fourcc) == code
}

/// `n_seqn` is the number of `SEQN` messages, `n_messages` the number of the
/// other messages, and each per-code count the number of messages with that code.
pub proof fn lemma_counts_are_message_counts(msgs: Seq<(Header, Seq<u8>)>)
    ensures
        seqn_values(msgs).len() == msgs.filter(seqn_message()).len(),
        msgs.len() - seqn_values(msgs).len() == msgs.filter(other_message()).len(),
        forall|code: u32| #[trigger] count_code(msgs, code) == msgs.filter(has_code(code)).len(),
    decreases msgs.len(),
{
    reveal(Seq::filter);
    if msgs.len() > 0 {
        lemma_counts_are_message_counts(msgs.drop_last());
        assert forall|code: u32| #[trigger]
            count_code(msgs, code) == msgs.filter(has_code(code)).len() by {
            assert(count_code(msgs.drop_last(), code) == msgs.drop_last().filter(
                has_code(code),
            ).len());
        }
    }
}

/// The per-code counts of `get_stats` are the multiplicities of the codes of
/// the messages other than `SEQN`, and they add up to `n_messages`: every
/// such message is counted once, under its own code, and `SEQN` never.
pub proof fn lemma_counts_add_up(msgs: Seq<(Header, Seq<u8>)>)
    ensures
        other_codes(msgs).len() == msgs.len() - seqn_values(msgs).len(),
        forall|code: u32|
            #[trigger] other_codes(msgs).count(code) == if code == seqn_code() {
                0
            } else {
                count_code(msgs, code)
            },
        msgs.len() <= u64::MAX ==> forall|code: u32|
            #[trigger] other_codes(msgs).count(code) == if message_counts_of(msgs).contains_key(
                code,
            ) {
                message_counts_of(msgs)[code] as nat
            } else {
                0
            },
    decreases msgs.len(),
{
    broadcast use vstd::multiset::group_multiset_axioms;

    if msgs.len() > 0 {
        let before = msgs.drop_last();
        lemma_counts_add_up(before);
        let f = msgs.last().0.fourcc;
        lemma_fourcc_code_injective(f, f);
        assert forall|code: u32|
            #[trigger] other_codes(msgs).count(code) == if code == seqn_code() {
                0
            } else {
                count_code(msgs, code)
            } by {
            assert(other_codes(before).count(code) == if code == seqn_code() {
                0
            } else {
                count_code(before, code)
            });
        }
    }
    if msgs.len() <= u64::MAX {
        assert forall|code: u32|
            #[trigger] other_codes(msgs).count(code) == if message_counts_of(msgs).contains_key(
                code,
            ) {
                message_counts_of(msgs)[code] as nat
            } else {
                0
            } by {
            lemma_count_code_bound(msgs, code);
        }
    }
}

proof fn lemma_log_bytes_lower_bound(msgs: Seq<(Header, Seq<u8>)>)
    requires
        seqn_bodies_readable(msgs),
    ensures
        log_bytes(msgs).len() >= 16 * seqn_values(msgs).len() + 12 * (msgs.len() - seqn_values(
            msgs,
        ).len()),
    decreases msgs.len(),
{
    if msgs.len() > 0 {
        let before = msgs.drop_last();
        let m = msgs.last();
        assert forall|i: int|
            0 <= i < before.len() && is_seqn(#[trigger] before[i].0.fourcc) implies before[i].1.len()
            >= 4 by {
            assert(before[i] == msgs[i]);
        }
        lemma_log_bytes_lower_bound(before);
        lemma_seqn_values_bound(before);
        assert(msgs =~= before.push(m));
        lemma_log_bytes_push(before, m);
        lemma_header_bytes_len(m.0);
        if is_seqn(m.0.fourcc) {
            assert(is_seqn(msgs[msgs.len() - 1].0.fourcc));
        }
    }
}

/// Reading gets through at least 16 bytes for each `SEQN` message and 12
/// for each other message.
pub proof fn lemma_bytes_read_lower_bound(log: Seq<u8>)
    requires
        seqn_bodies_readable(log_messages(log)),
    ensures
        bytes_read(log) >= 16 * seqn_values(log_messages(log)).len() + 12 * (log_messages(
            log,
        ).len() - seqn_values(log_messages(log)).len()),
{
    lemma_log_messages_reencode(log);
    lemma_log_bytes_lower_bound(log_messages(log));
}

/// The sequence numbers of two runs of messages, one after the other, are
/// those of the first run followed by those of the second.
pub proof fn lemma_seqn_values_concat(a: Seq<(Header, Seq<u8>)>, b: Seq<(Header, Seq<u8>)>)
    ensures
        seqn_values(a + b) == seqn_values(a) + seqn_values(b),
        forall|code: u32| #[trigger] count_code(a + b, code) == count_code(a, code) + count_code(b, code),
    decreases b.len(),
{
    if b.len() == 0 {
        assert(a + b =~= a);
        assert(seqn_values(a) + seqn_values(b) =~= seqn_values(a));
    } else {
        lemma_seqn_values_concat(a, b.drop_last());
        assert((a + b).drop_last() =~= a + b.drop_last());
        assert((a + b).last() == b.last());
        assert(seqn_values(a + b) =~= seqn_values(a) + seqn_values(b));
        assert forall|code: u32| #[trigger]
            count_code(a + b, code) == count_code(a, code) + count_code(b, code) by {
            assert(count_code(a + b.drop_last(), code) == count_code(a, code) + count_code(
                b.drop_last(),
                code,
            ));
        }
    }
}

/// The statistics of a log of whole messages followed by any bytes combine
/// those of the two parts: the messages are those of the first part then
/// those of the second, so the `SEQN` values, the counts and the bytes read
/// add up (and the first and last sequence numbers come from the parts).
pub proof fn lemma_stats_concat(a: Seq<u8>, b: Seq<u8>)
    requires
        log_consumed(a) == a.len(),
    ensures
        log_messages(a + b) == log_messages(a) + log_messages(b),
        bytes_read(a + b) == bytes_read(a) + bytes_read(b),
        seqn_values(log_messages(a + b)) == seqn_values(log_messages(a)) + seqn_values(
            log_messages(b),
        ),
        forall|code: u32| #[trigger]
            count_code(log_messages(a + b), code) == count_code(log_messages(a), code)
                + count_code(log_messages(b), code),
{
    lemma_log_messages_reencode(a);
    assert(a.take(a.len() as int) =~= a);
    crate::log::lemma_read_written_log(log_messages(a), b);
    lemma_seqn_values_concat(log_messages(a), log_messages(b));
}

/// The sequence numbers that `get_stats` reads are, in order, one for each
/// `SEQN` message of the log: the base-256 value of the first four bytes of
/// its body, most significant first.
pub proof fn lemma_seqn_values_are_bodies(msgs: Seq<(Header, Seq<u8>)>)
    requires
        seqn_bodies_readable(msgs),
    ensures
        seqn_values(msgs).len() == msgs.filter(seqn_message()).len(),
        forall|k: int|
            0 <= k < seqn_values(msgs).len() ==> {
                let b = msgs.filter(seqn_message())[k].1;
                #[trigger] seqn_values(msgs)[k] as int == b[0] * 0x100_0000 + b[1] * 0x1_0000 + b[2]
                    * 0x100 + b[3]
            },
    decreases msgs.len(),
{
    reveal(Seq::filter);
    if msgs.len() > 0 {
        let before = msgs.drop_last();
        let n = msgs.len() - 1;
        let m = msgs.last();
        assert forall|i: int|
            0 <= i < before.len() && is_seqn(#[trigger] before[i].0.fourcc) implies before[i].1.len()
            >= 4 by {
            assert(before[i] == msgs[i]);
        }
        lemma_seqn_values_are_bodies(before);
        if is_seqn(m.0.fourcc) {
            assert(is_seqn(msgs[n].0.fourcc));
            crate::messages::lemma_seqn_of_body_value(m.1);
        }
    }
}

/// The first sequence number is that of the first `SEQN` message, and the
/// last that of the last one: the base-256 value of the first four bytes of
/// its body.
pub proof fn lemma_first_and_last_seqn(msgs: Seq<(Header, Seq<u8>)>, i: int)
    requires
        seqn_bodies_readable(msgs),
        0 <= i < msgs.len(),
        is_seqn(msgs[i].0.fourcc),
    ensures
        seqn_values(msgs).len() > 0,
        (forall|l: int| 0 <= l < i ==> !is_seqn(#[trigger] msgs[l].0.fourcc)) ==> seqn_values(
            msgs,
        )[0] as int == msgs[i].1[0] * 0x100_0000 + msgs[i].1[1] * 0x1_0000 + msgs[i].1[2] * 0x100
            + msgs[i].1[3],
        (forall|l: int| i < l < msgs.len() ==> !is_seqn(#[trigger] msgs[l].0.fourcc))
            ==> seqn_values(msgs).last() as int == msgs[i].1[0] * 0x100_0000 + msgs[i].1[1]
            * 0x1_0000 + msgs[i].1[2] * 0x100 + msgs[i].1[3],
    decreases msgs.len(),
{
    let before = msgs.drop_last();
    let n = msgs.len() - 1;
    crate::messages::lemma_seqn_of_body_value(msgs[i].1);
    assert forall|j: int|
        0 <= j < before.len() && is_seqn(#[trigger] before[j].0.fourcc) implies before[j].1.len()
        >= 4 by {
        assert(before[j] == msgs[j]);
    }
    if i < n {
        assert(before[i] == msgs[i]);
        lemma_first_and_last_seqn(before, i);
        if forall|l: int| 0 <= l < i ==> !is_seqn(#[trigger] msgs[l].0.fourcc) {
            assert forall|l: int| 0 <= l < i implies !is_seqn(#[trigger] before[l].0.fourcc) by {
                assert(before[l] == msgs[l]);
            }
        }
        if forall|l: int| i < l < msgs.len() ==> !is_seqn(#[trigger] msgs[l].0.fourcc) {
            assert(!is_seqn(msgs[n].0.fourcc));
            assert forall|l: int| i < l < before.len() implies !is_seqn(
                #[trigger] before[l].0.fourcc,
            ) by {
                assert(before[l] == msgs[l]);
            }
        }
    } else {
        if forall|l: int| 0 <= l < i ==> !is_seqn(#[trigger] msgs[l].0.fourcc) {
            assert forall|l: int| 0 <= l < before.len() implies !is_seqn(
                #[trigger] before[l].0.fourcc,
            ) by {
                assert(before[l] == msgs[l]);
            }
            lemma_no_seqn_no_values(before);
        }
    }
}

/// Messages without a `SEQN` message give no sequence numbers.
proof fn lemma_no_seqn_no_values(msgs: Seq<(Header, Seq<u8>)>)
    requires
        forall|l: int| 0 <= l < msgs.len() ==> !is_seqn(#[trigger] msgs[l].0.fourcc),
    ensures
        seqn_values(msgs).len() == 0,
    decreases msgs.len(),
{
    if msgs.len() > 0 {
        let before = msgs.drop_last();
        assert forall|l: int| 0 <= l < before.len() implies !is_seqn(#[trigger] before[l].0.fourcc) by {
            assert(before[l] == msgs[l]);
        }
        lemma_no_seqn_no_values(before);
        assert(!is_seqn(msgs[msgs.len() - 1].0.fourcc));
    }
}

} // verus!
