//! Cutting a telemetry log down to the messages that follow the sequence
//! numbers of a given range.

use crate::log::{
    lemma_log_bytes_push, lemma_partial_tail_ignored, lemma_log_messages_reencode, lemma_log_roundtrip, log_bytes, log_consumed,
    log_messages, message_bytes, message_fits, messages_view, split_log, Message,
};
use crate::messages::{is_seqn, read_seqn_body, seqn_of_body, Header};
use crate::stats::fourcc_is_seqn;
use vstd::prelude::*;
use vstd::utf8::valid_utf8;

verus! {

/// The views of the entries of a keep-list.
pub open spec fn keeplist_view(keeplist: Seq<Vec<u8>>) -> Seq<Seq<u8>> {
    keeplist.map_values(|k: Vec<u8>| k@)
}

/// Whether a sequence number lies in the range to keep: from `seqn_i` to
/// `seqn_f`, both included. A negative `seqn_f` stands for no last sequence
/// number, and leaves the range open at the top.
pub open spec fn seqn_in_range(seqn: u32, seqn_i: i64, seqn_f: i64) -> bool {
    if seqn_f >= 0 {
        seqn_i <= seqn && seqn <= seqn_f
    } else {
        seqn_i <= seqn
    }
}

/// Whether the messages that follow `msgs` are written: the last `SEQN`
/// message among `msgs` lies in the range.
pub open spec fn writing_after(msgs: Seq<(Header, Seq<u8>)>, seqn_i: i64, seqn_f: i64) -> bool
    decreases msgs.len(),
{
    if msgs.len() == 0 {
        false
    } else if is_seqn(msgs.last().0.fourcc) {
        seqn_in_range(seqn_of_body(msgs.last().1), seqn_i, seqn_f)
    } else {
        writing_after(msgs.drop_last(), seqn_i, seqn_f)
    }
}

/// How many times message `m`, which follows `before`, is written (0 or 1):
/// a `SEQN` message when its sequence number is in the range; another
/// message while writing, when the keep-list is empty or has its code.
pub open spec fn copies(
    before: Seq<(Header, Seq<u8>)>,
    m: (Header, Seq<u8>),
    seqn_i: i64,
    seqn_f: i64,
    keeplist: Seq<Seq<u8>>,
) -> nat {
    if is_seqn(m.0.fourcc) {
        if seqn_in_range(seqn_of_body(m.1), seqn_i, seqn_f) {
            1
        } else {
            0
        }
    } else if writing_after(before, seqn_i, seqn_f) {
        if keeplist.len() == 0 || keeplist.contains(m.0.fourcc@) {
            1
        } else {
            0
        }
    } else {
        0
    }
}

/// `n` copies of message `m`.
pub open spec fn repeat(m: (Header, Seq<u8>), n: nat) -> Seq<(Header, Seq<u8>)> {
    Seq::new(n, |j: int| m)
}

/// The messages that truncation writes, in order.
pub open spec fn trunc_selection(
    msgs: Seq<(Header, Seq<u8>)>,
    seqn_i: i64,
    seqn_f: i64,
    keeplist: Seq<Seq<u8>>,
) -> Seq<(Header, Seq<u8>)>
    decreases msgs.len(),
{
    if msgs.len() == 0 {
        Seq::empty()
    } else {
        trunc_selection(msgs.drop_last(), seqn_i, seqn_f, keeplist) + repeat(
            msgs.last(),
            copies(msgs.drop_last(), msgs.last(), seqn_i, seqn_f, keeplist),
        )
    }
}

/// Truncation can handle message `m`, which follows `before`: a `SEQN` body
/// holds a sequence number, and a code compared with a non-empty keep-list
/// is UTF-8.
pub open spec fn step_defined(
    before: Seq<(Header, Seq<u8>)>,
    m: (Header, Seq<u8>),
    seqn_i: i64,
    seqn_f: i64,
    keeplist: Seq<Seq<u8>>,
) -> bool {
    if is_seqn(m.0.fourcc) {
        m.1.len() >= 4
    } else {
        (writing_after(before, seqn_i, seqn_f) && keeplist.len() > 0) ==> valid_utf8(m.0.fourcc@)
    }
}

/// Truncation can handle every message of `msgs`.
pub open spec fn trunc_defined(
    msgs: Seq<(Header, Seq<u8>)>,
    seqn_i: i64,
    seqn_f: i64,
    keeplist: Seq<Seq<u8>>,
) -> bool
    decreases msgs.len(),
{
    msgs.len() > 0 ==> {
        &&& trunc_defined(msgs.drop_last(), seqn_i, seqn_f, keeplist)
        &&& step_defined(msgs.drop_last(), msgs.last(), seqn_i, seqn_f, keeplist)
    }
}

proof fn lemma_trunc_defined_prefix(
    msgs: Seq<(Header, Seq<u8>)>,
    i: int,
    seqn_i: i64,
    seqn_f: i64,
    keeplist: Seq<Seq<u8>>,
)
    requires
        trunc_defined(msgs, seqn_i, seqn_f, keeplist),
        0 <= i < msgs.len(),
    ensures
        step_defined(msgs.take(i), msgs[i], seqn_i, seqn_f, keeplist),
    decreases msgs.len(),
{
    if i == msgs.len() - 1 {
        assert(msgs.drop_last() =~= msgs.take(i));
    } else {
        lemma_trunc_defined_prefix(msgs.drop_last(), i, seqn_i, seqn_f, keeplist);
        assert(msgs.drop_last().take(i) =~= msgs.take(i));
    }
}

/// Whether `fourcc` is valid UTF-8.
///
/// Trusted: `std::str::from_utf8`, which returns `Ok` exactly when its
/// argument is valid UTF-8; vstd's `valid_utf8` states that property.
#[verifier::external_body]
fn fourcc_is_utf8(fourcc: &[u8; 4]) -> (r: bool)
    ensures
        r == valid_utf8(fourcc@),
{
    std::str::from_utf8(fourcc).is_ok()
}

/// Whether a keep-list entry is the four character code `fourcc`.
fn entry_is(entry: &Vec<u8>, fourcc: &[u8; 4]) -> (r: bool)
    ensures
        r == (entry@ == fourcc@),
{
    let r = entry.len() == 4 && entry[0] == fourcc[0] && entry[1] == fourcc[1] && entry[2]
        == fourcc[2] && entry[3] == fourcc[3];
    proof {
        if r {
            assert(entry@ =~= fourcc@);
        }
    }
    r
}

/// Whether a sequence number lies in the range to keep.
fn in_range(seqn: u32, seqn_i: i64, seqn_f: i64) -> (r: bool)
    ensures
        r == seqn_in_range(seqn, seqn_i, seqn_f),
        r == (seqn_i <= seqn && (seqn_f >= 0 ==> seqn <= seqn_f)),
{
    let seqn = seqn as i64;
    if seqn_f >= 0 {
        seqn >= seqn_i && seqn <= seqn_f
    } else {
        seqn >= seqn_i
    }
}

/// Whether an entry of the keep-list is the four character code `fourcc`.
fn keeplist_has(keeplist: &Vec<Vec<u8>>, fourcc: &[u8; 4]) -> (r: bool)
    ensures
        r == keeplist_view(keeplist@).contains(fourcc@),
{
    let ghost kv = keeplist_view(keeplist@);
    let mut k: usize = 0;
    while k < keeplist.len()
        invariant
            k <= keeplist@.len(),
            kv == keeplist_view(keeplist@),
            forall|j: int| 0 <= j < k ==> kv[j] != fourcc@,
        decreases keeplist@.len() - k,
    {
        if entry_is(&keeplist[k], fourcc) {
            assert(kv[k as int] == fourcc@);
            return true;
        }
        k = k + 1;
    }
    false
}

/// Writes a message, header then body, to the end of `out`.
fn write_message(m: &Message, out: &mut Vec<u8>)
    ensures
        final(out)@ == old(out)@ + message_bytes(m@),
{
    m.header.write(out);
    let ghost start = out@;
    let mut j: usize = 0;
    while j < m.body.len()
        invariant
            j <= m.body@.len(),
            out@ == start + m.body@.take(j as int),
        decreases m.body@.len() - j,
    {
        out.push(m.body[j]);
        assert(m.body@.take(j + 1) =~= m.body@.take(j as int).push(m.body@[j as int]));
        j = j + 1;
    }
    assert(m.body@.take(m.body@.len() as int) =~= m.body@);
    assert(out@ =~= old(out)@ + message_bytes(m@));
}

/// Whether truncation can handle every message of the log: each `SEQN`
/// body holds a sequence number, and with a non-empty keep-list each code
/// compared with it is UTF-8.
pub fn trunc_sequence_defined(
    log: &[u8],
    seqn_i: i64,
    seqn_f: i64,
    keeplist: &Vec<Vec<u8>>,
) -> (r: bool)
    ensures
        r == trunc_defined(log_messages(log@), seqn_i, seqn_f, keeplist_view(keeplist@)),
{
    let ghost kv = keeplist_view(keeplist@);
    let (messages, _) = split_log(log);
    let ghost msgs = messages_view(messages@);
    let mut write = false;
    let mut i: usize = 0;
    assert(msgs.take(0) =~= Seq::<(Header, Seq<u8>)>::empty());
    while i < messages.len()
        invariant
            i <= messages@.len(),
            msgs == messages_view(messages@),
            msgs == log_messages(log@),
            kv == keeplist_view(keeplist@),
            write == writing_after(msgs.take(i as int), seqn_i, seqn_f),
            trunc_defined(msgs.take(i as int), seqn_i, seqn_f, kv),
        decreases messages@.len() - i,
    {
        let m = &messages[i];
        let ghost done = msgs.take(i as int);
        let ghost next = msgs.take(i + 1);
        proof {
            assert(msgs[i as int] == m@);
            assert(next.drop_last() =~= done);
            assert(next.last() == m@);
        }
        if fourcc_is_seqn(&m.header.fourcc) {
            if m.body.len() < 4 {
                proof {
                    if trunc_defined(msgs, seqn_i, seqn_f, kv) {
                        lemma_trunc_defined_prefix(msgs, i as int, seqn_i, seqn_f, kv);
                    }
                }
                return false;
            }
            let seqn = read_seqn_body(&m.body);
            write = in_range(seqn, seqn_i, seqn_f);
        } else if write && keeplist.len() > 0 {
            if !fourcc_is_utf8(&m.header.fourcc) {
                proof {
                    if trunc_defined(msgs, seqn_i, seqn_f, kv) {
                        lemma_trunc_defined_prefix(msgs, i as int, seqn_i, seqn_f, kv);
                    }
                }
                return false;
            }
        }
        i = i + 1;
    }
    assert(msgs.take(messages@.len() as int) =~= msgs);
    true
}

/// Keeps the messages of a log that follow a `SEQN` message whose sequence
/// number lies in the range from `seqn_i` to `seqn_f`, both included (or at
/// least `seqn_i`, when `seqn_f` is negative, which stands for no last
/// sequence number), together with those `SEQN` messages, and
/// returns them encoded one after the other. With a non-empty keep-list,
/// only the messages whose code is an entry are kept (each message at most
/// once).
pub fn trunc_sequence(
    log: &[u8],
    seqn_i: i64,
    seqn_f: i64,
    keeplist: &Vec<Vec<u8>>,
) -> (r: Vec<u8>)
    requires
        trunc_defined(log_messages(log@), seqn_i, seqn_f, keeplist_view(keeplist@)),
    ensures
        r@ == log_bytes(
            trunc_selection(log_messages(log@), seqn_i, seqn_f, keeplist_view(keeplist@)),
        ),
{
    let ghost kv = keeplist_view(keeplist@);
    let (messages, _) = split_log(log);
    let ghost msgs = messages_view(messages@);
    let mut out: Vec<u8> = Vec::new();
    let mut write = false;
    let mut i: usize = 0;
    let ghost mut selected: Seq<(Header, Seq<u8>)> = Seq::empty();
    assert(msgs.take(0) =~= Seq::<(Header, Seq<u8>)>::empty());
    while i < messages.len()
        invariant
            i <= messages@.len(),
            msgs == messages_view(messages@),
            msgs == log_messages(log@),
            kv == keeplist_view(keeplist@),
            trunc_defined(msgs, seqn_i, seqn_f, kv),
            write == writing_after(msgs.take(i as int), seqn_i, seqn_f),
            selected == trunc_selection(msgs.take(i as int), seqn_i, seqn_f, kv),
            out@ == log_bytes(selected),
        decreases messages@.len() - i,
    {
        let m = &messages[i];
        let ghost done = msgs.take(i as int);
        let ghost next = msgs.take(i + 1);
        proof {
            assert(msgs[i as int] == m@);
            assert(next.drop_last() =~= done);
            assert(next.last() == m@);
            lemma_trunc_defined_prefix(msgs, i as int, seqn_i, seqn_f, kv);
        }
        let ghost n = copies(done, m@, seqn_i, seqn_f, kv);
        if fourcc_is_seqn(&m.header.fourcc) {
            let seqn = read_seqn_body(&m.body);
            if in_range(seqn, seqn_i, seqn_f) {
                write = true;
                proof {
                    lemma_log_bytes_push(selected, m@);
                    assert(repeat(m@, 1) =~= seq![m@]);
                    assert(selected + repeat(m@, n) =~= selected.push(m@));
                    selected = selected.push(m@);
                }
                write_message(m, &mut out);
            } else {
                write = false;
                proof {
                    assert(selected + repeat(m@, n) =~= selected);
                }
            }
        } else if write {
            if keeplist.len() > 0 {
                if keeplist_has(keeplist, &m.header.fourcc) {
                    proof {
                        lemma_log_bytes_push(selected, m@);
                        assert(repeat(m@, 1) =~= seq![m@]);
                        assert(selected + repeat(m@, n) =~= selected.push(m@));
                        selected = selected.push(m@);
                    }
                    write_message(m, &mut out);
                } else {
                    proof {
                        assert(selected + repeat(m@, n) =~= selected);
                    }
                }
            } else {
                proof {
                    lemma_log_bytes_push(selected, m@);
                    assert(repeat(m@, 1) =~= seq![m@]);
                    assert(selected + repeat(m@, n) =~= selected.push(m@));
                    selected = selected.push(m@);
                }
                write_message(m, &mut out);
            }
        } else {
            proof {
                assert(selected + repeat(m@, n) =~= selected);
            }
        }
        i = i + 1;
    }
    assert(msgs.take(messages@.len() as int) =~= msgs);
    out
}

proof fn lemma_selection_fits(
    msgs: Seq<(Header, Seq<u8>)>,
    seqn_i: i64,
    seqn_f: i64,
    keeplist: Seq<Seq<u8>>,
)
    requires
        forall|i: int| 0 <= i < msgs.len() ==> message_fits(#[trigger] msgs[i]),
    ensures
        forall|j: int|
            0 <= j < trunc_selection(msgs, seqn_i, seqn_f, keeplist).len() ==> message_fits(
                #[trigger] trunc_selection(msgs, seqn_i, seqn_f, keeplist)[j],
            ),
    decreases msgs.len(),
{
    if msgs.len() > 0 {
        let before = msgs.drop_last();
        assert forall|i: int| 0 <= i < before.len() implies message_fits(#[trigger] before[i]) by {
            assert(before[i] == msgs[i]);
        }
        lemma_selection_fits(before, seqn_i, seqn_f, keeplist);
        let sel = trunc_selection(msgs, seqn_i, seqn_f, keeplist);
        let prev = trunc_selection(before, seqn_i, seqn_f, keeplist);
        assert(message_fits(msgs[msgs.len() - 1]));
        assert forall|j: int| 0 <= j < sel.len() implies message_fits(#[trigger] sel[j]) by {
            if j < prev.len() {
                assert(sel[j] == prev[j]);
            } else {
                assert(sel[j] == msgs.last());
            }
        }
    }
}

/// The output of truncation is itself a log: reading it gives back exactly
/// the messages that truncation selected, in order, and every byte of it.
pub proof fn lemma_trunc_output_reads_back(
    log: Seq<u8>,
    seqn_i: i64,
    seqn_f: i64,
    keeplist: Seq<Seq<u8>>,
)
    ensures
        ({
            let sel = trunc_selection(log_messages(log), seqn_i, seqn_f, keeplist);
            &&& log_messages(log_bytes(sel)) == sel
            &&& log_consumed(log_bytes(sel)) == log_bytes(sel).len()
        }),
{
    lemma_log_messages_reencode(log);
    lemma_selection_fits(log_messages(log), seqn_i, seqn_f, keeplist);
    lemma_log_roundtrip(trunc_selection(log_messages(log), seqn_i, seqn_f, keeplist));
}

/// The number of messages before the first `SEQN` message of `msgs` (all of
/// them, when there is none).
pub open spec fn leading_before_seqn(msgs: Seq<(Header, Seq<u8>)>) -> nat
    decreases msgs.len(),
{
    if msgs.len() == 0 {
        0
    } else {
        let before = leading_before_seqn(msgs.drop_last());
        if before == msgs.len() - 1 && !is_seqn(msgs.last().0.fourcc) {
            msgs.len()
        } else {
            before
        }
    }
}

/// With the range open at both ends (a first sequence number of at most 0,
/// and a negative last one, which stands for none) and an empty keep-list,
/// truncation keeps
/// every message from the first `SEQN` message on, and drops those before it.
pub proof fn lemma_open_range_keeps_from_first_seqn(
    msgs: Seq<(Header, Seq<u8>)>,
    seqn_i: i64,
    seqn_f: i64,
)
    requires
        seqn_i <= 0,
        seqn_f < 0,
    ensures
        leading_before_seqn(msgs) <= msgs.len(),
        writing_after(msgs, seqn_i, seqn_f) <==> leading_before_seqn(msgs) < msgs.len(),
        trunc_selection(msgs, seqn_i, seqn_f, Seq::empty()) == msgs.skip(
            leading_before_seqn(msgs) as int,
        ),
    decreases msgs.len(),
{
    if msgs.len() > 0 {
        let before = msgs.drop_last();
        lemma_open_range_keeps_from_first_seqn(before, seqn_i, seqn_f);
        let lead = leading_before_seqn(before);
        let m = msgs.last();
        if lead == before.len() && !is_seqn(m.0.fourcc) {
            assert(msgs.skip(msgs.len() as int) =~= Seq::<(Header, Seq<u8>)>::empty());
            assert(before.skip(lead as int) =~= Seq::<(Header, Seq<u8>)>::empty());
            assert(repeat(m, 0) =~= Seq::<(Header, Seq<u8>)>::empty());
        } else {
            assert(repeat(m, 1) =~= seq![m]);
            assert(msgs.skip(lead as int) =~= before.skip(lead as int).push(m));
        }
    }
}

proof fn lemma_selection_stable(
    msgs: Seq<(Header, Seq<u8>)>,
    seqn_i: i64,
    seqn_f: i64,
    keeplist: Seq<Seq<u8>>,
)
    requires
        trunc_defined(msgs, seqn_i, seqn_f, keeplist),
    ensures
        trunc_selection(trunc_selection(msgs, seqn_i, seqn_f, keeplist), seqn_i, seqn_f, keeplist)
            == trunc_selection(msgs, seqn_i, seqn_f, keeplist),
        trunc_defined(trunc_selection(msgs, seqn_i, seqn_f, keeplist), seqn_i, seqn_f, keeplist),
        writing_after(msgs, seqn_i, seqn_f) ==> writing_after(
            trunc_selection(msgs, seqn_i, seqn_f, keeplist),
            seqn_i,
            seqn_f,
        ),
    decreases msgs.len(),
{
    if msgs.len() > 0 {
        let before = msgs.drop_last();
        let m = msgs.last();
        lemma_selection_stable(before, seqn_i, seqn_f, keeplist);
        let s0 = trunc_selection(before, seqn_i, seqn_f, keeplist);
        let c = copies(before, m, seqn_i, seqn_f, keeplist);
        assert(c <= 1);
        if c == 0 {
            assert(s0 + repeat(m, c) =~= s0);
        } else {
            let s1 = s0.push(m);
            assert(s0 + repeat(m, c) =~= s1);
            assert(s1.drop_last() =~= s0);
            assert(s1.last() == m);
            assert(copies(s0, m, seqn_i, seqn_f, keeplist) == 1);
            assert(trunc_selection(s1, seqn_i, seqn_f, keeplist) =~= s0 + repeat(m, 1));
        }
    }
}

/// Truncating the output of a truncation again, with the same range and
/// keep-list, gives that output back unchanged (and the second truncation
/// has nothing it cannot handle).
pub proof fn lemma_trunc_idempotent(log: Seq<u8>, seqn_i: i64, seqn_f: i64, keeplist: Seq<Seq<u8>>)
    requires
        trunc_defined(log_messages(log), seqn_i, seqn_f, keeplist),
    ensures
        ({
            let out = log_bytes(trunc_selection(log_messages(log), seqn_i, seqn_f, keeplist));
            &&& trunc_defined(log_messages(out), seqn_i, seqn_f, keeplist)
            &&& log_bytes(trunc_selection(log_messages(out), seqn_i, seqn_f, keeplist)) == out
        }),
{
    lemma_trunc_output_reads_back(log, seqn_i, seqn_f, keeplist);
    lemma_selection_stable(log_messages(log), seqn_i, seqn_f, keeplist);
}

/// Whether a keep-list lets a message through: a `SEQN` message always,
/// another one when its code is an entry.
pub open spec fn kept_by(keeplist: Seq<Seq<u8>>) -> spec_fn((Header, Seq<u8>)) -> bool {
    |m: (Header, Seq<u8>)| is_seqn(m.0.fourcc) || keeplist.contains(m.0.fourcc@)
}

/// With a non-empty keep-list, truncation writes
/// the messages that it writes without a keep-list, in the same order, less
/// those that are not `SEQN` and whose code is not an entry.
pub proof fn lemma_keeplist_filters(
    msgs: Seq<(Header, Seq<u8>)>,
    seqn_i: i64,
    seqn_f: i64,
    keeplist: Seq<Seq<u8>>,
)
    requires
        keeplist.len() > 0,
    ensures
        trunc_selection(msgs, seqn_i, seqn_f, keeplist) == trunc_selection(
            msgs,
            seqn_i,
            seqn_f,
            Seq::empty(),
        ).filter(kept_by(keeplist)),
    decreases msgs.len(),
{
    reveal(Seq::filter);
    if msgs.len() > 0 {
        let before = msgs.drop_last();
        let m = msgs.last();
        lemma_keeplist_filters(before, seqn_i, seqn_f, keeplist);
        let all0 = trunc_selection(before, seqn_i, seqn_f, Seq::empty());
        let kept0 = trunc_selection(before, seqn_i, seqn_f, keeplist);
        let c_all = copies(before, m, seqn_i, seqn_f, Seq::empty());
        let c_kept = copies(before, m, seqn_i, seqn_f, keeplist);
        let pred = kept_by(keeplist);
        if c_all == 0 {
            assert(all0 + repeat(m, c_all) =~= all0);
            assert(kept0 + repeat(m, c_kept) =~= kept0);
        } else {
            let all1 = all0.push(m);
            assert(all0 + repeat(m, c_all) =~= all1);
            assert(all1.drop_last() =~= all0);
            assert(all1.last() == m);
            if pred(m) {
                assert(kept0 + repeat(m, c_kept) =~= kept0.push(m));
            } else {
                assert(kept0 + repeat(m, c_kept) =~= kept0);
            }
        }
    }
}

/// Bytes that end a log in the middle of a message change nothing that
/// truncation writes.
pub proof fn lemma_trunc_ignores_partial_tail(
    log: Seq<u8>,
    m: (Header, Seq<u8>),
    k: int,
    seqn_i: i64,
    seqn_f: i64,
    keeplist: Seq<Seq<u8>>,
)
    requires
        log_consumed(log) == log.len(),
        message_fits(m),
        0 <= k < message_bytes(m).len(),
    ensures
        trunc_selection(log_messages(log + message_bytes(m).take(k)), seqn_i, seqn_f, keeplist)
            == trunc_selection(log_messages(log), seqn_i, seqn_f, keeplist),
{
    lemma_partial_tail_ignored(log, m, k);
}

/// Whether message `j` of `msgs` is written by truncation.
pub open spec fn written(
    msgs: Seq<(Header, Seq<u8>)>,
    j: int,
    seqn_i: i64,
    seqn_f: i64,
    keeplist: Seq<Seq<u8>>,
) -> bool {
    copies(msgs.take(j), msgs[j], seqn_i, seqn_f, keeplist) == 1
}

/// Whether `msgs` holds a `SEQN` message, and the last of them has a
/// sequence number in the range.
pub open spec fn last_seqn_in_range(msgs: Seq<(Header, Seq<u8>)>, seqn_i: i64, seqn_f: i64) -> bool {
    exists|i: int|
        0 <= i < msgs.len() && #[trigger] is_seqn(msgs[i].0.fourcc) && seqn_in_range(
            seqn_of_body(msgs[i].1),
            seqn_i,
            seqn_f,
        ) && forall|l: int| i < l < msgs.len() ==> !is_seqn(#[trigger] msgs[l].0.fourcc)
}

/// Truncation writes after `msgs` exactly when the last `SEQN` message of
/// `msgs` has a sequence number in the range.
pub proof fn lemma_writing_after_last_seqn(msgs: Seq<(Header, Seq<u8>)>, seqn_i: i64, seqn_f: i64)
    ensures
        writing_after(msgs, seqn_i, seqn_f) <==> last_seqn_in_range(msgs, seqn_i, seqn_f),
    decreases msgs.len(),
{
    if msgs.len() > 0 {
        let before = msgs.drop_last();
        let n = msgs.len() - 1;
        lemma_writing_after_last_seqn(before, seqn_i, seqn_f);
        if is_seqn(msgs[n].0.fourcc) {
            if last_seqn_in_range(msgs, seqn_i, seqn_f) {
                let i = choose|i: int|
                    0 <= i < msgs.len() && #[trigger] is_seqn(msgs[i].0.fourcc) && seqn_in_range(
                        seqn_of_body(msgs[i].1),
                        seqn_i,
                        seqn_f,
                    ) && forall|l: int| i < l < msgs.len() ==> !is_seqn(#[trigger] msgs[l].0.fourcc);
                if i < n {
                    assert(!is_seqn(msgs[n].0.fourcc));
                }
            }
            if writing_after(msgs, seqn_i, seqn_f) {
                assert(is_seqn(msgs[n].0.fourcc));
            }
        } else {
            if last_seqn_in_range(msgs, seqn_i, seqn_f) {
                let i = choose|i: int|
                    0 <= i < msgs.len() && #[trigger] is_seqn(msgs[i].0.fourcc) && seqn_in_range(
                        seqn_of_body(msgs[i].1),
                        seqn_i,
                        seqn_f,
                    ) && forall|l: int| i < l < msgs.len() ==> !is_seqn(#[trigger] msgs[l].0.fourcc);
                assert(i < n);
                assert(before[i] == msgs[i]);
                assert forall|l: int| i < l < before.len() implies !is_seqn(
                    #[trigger] before[l].0.fourcc,
                ) by {
                    assert(before[l] == msgs[l]);
                    assert(!is_seqn(msgs[l].0.fourcc));
                }
                assert(is_seqn(before[i].0.fourcc));
            }
            if last_seqn_in_range(before, seqn_i, seqn_f) {
                let i = choose|i: int|
                    0 <= i < before.len() && #[trigger] is_seqn(before[i].0.fourcc) && seqn_in_range(
                        seqn_of_body(before[i].1),
                        seqn_i,
                        seqn_f,
                    ) && forall|l: int| i < l < before.len() ==> !is_seqn(
                        #[trigger] before[l].0.fourcc,
                    );
                assert(before[i] == msgs[i]);
                assert forall|l: int| i < l < msgs.len() implies !is_seqn(
                    #[trigger] msgs[l].0.fourcc,
                ) by {
                    if l < n {
                        assert(before[l] == msgs[l]);
                        assert(!is_seqn(before[l].0.fourcc));
                    }
                }
                assert(is_seqn(msgs[i].0.fourcc));
            }
        }
    }
}

/// Truncation writes each message at most once. A `SEQN` message is written
/// exactly when its sequence number is in the range; another message exactly
/// when the last `SEQN` message before it has a sequence number in the range
/// and the keep-list is empty or has its code (so nothing before the first
/// `SEQN` message is ever written).
pub proof fn lemma_message_written_iff(
    msgs: Seq<(Header, Seq<u8>)>,
    j: int,
    seqn_i: i64,
    seqn_f: i64,
    keeplist: Seq<Seq<u8>>,
)
    requires
        0 <= j < msgs.len(),
    ensures
        copies(msgs.take(j), msgs[j], seqn_i, seqn_f, keeplist) <= 1,
        written(msgs, j, seqn_i, seqn_f, keeplist) <==> if is_seqn(msgs[j].0.fourcc) {
            seqn_in_range(seqn_of_body(msgs[j].1), seqn_i, seqn_f)
        } else {
            last_seqn_in_range(msgs.take(j), seqn_i, seqn_f) && (keeplist.len() == 0
                || keeplist.contains(msgs[j].0.fourcc@))
        },
{
    lemma_writing_after_last_seqn(msgs.take(j), seqn_i, seqn_f);
}

/// What truncation writes is the messages it writes, each once, in the order
/// of the log: positions `idx`, strictly increasing, are exactly the
/// positions `j` of `msgs` with `written(msgs, j, ..)`.
pub proof fn lemma_selection_in_order(
    msgs: Seq<(Header, Seq<u8>)>,
    seqn_i: i64,
    seqn_f: i64,
    keeplist: Seq<Seq<u8>>,
) -> (idx: Seq<int>)
    ensures
        idx.len() == trunc_selection(msgs, seqn_i, seqn_f, keeplist).len(),
        forall|k: int|
            0 <= k < idx.len() ==> 0 <= #[trigger] idx[k] < msgs.len() && trunc_selection(
                msgs,
                seqn_i,
                seqn_f,
                keeplist,
            )[k] == msgs[idx[k]],
        forall|k: int, l: int| 0 <= k < l < idx.len() ==> #[trigger] idx[k] < #[trigger] idx[l],
        forall|j: int|
            0 <= j < msgs.len() ==> (idx.contains(j) <==> #[trigger] written(
                msgs,
                j,
                seqn_i,
                seqn_f,
                keeplist,
            )),
    decreases msgs.len(),
{
    if msgs.len() == 0 {
        Seq::empty()
    } else {
        let before = msgs.drop_last();
        let n = msgs.len() - 1;
        let m = msgs.last();
        let idx0 = lemma_selection_in_order(before, seqn_i, seqn_f, keeplist);
        let sel0 = trunc_selection(before, seqn_i, seqn_f, keeplist);
        let c = copies(before, m, seqn_i, seqn_f, keeplist);
        assert(msgs.take(n) =~= before);
        assert forall|j: int| 0 <= j < n implies #[trigger] written(
            msgs,
            j,
            seqn_i,
            seqn_f,
            keeplist,
        ) == written(before, j, seqn_i, seqn_f, keeplist) by {
            assert(msgs.take(j) =~= before.take(j));
            assert(msgs[j] == before[j]);
        }
        if c == 1 {
            let idx = idx0.push(n);
            assert(sel0 + repeat(m, c) =~= sel0.push(m));
            assert forall|j: int| 0 <= j < msgs.len() implies (idx.contains(j) <==> #[trigger] written(
                msgs,
                j,
                seqn_i,
                seqn_f,
                keeplist,
            )) by {
                if j < n {
                    if idx.contains(j) {
                        let k = choose|k: int| 0 <= k < idx.len() && idx[k] == j;
                        assert(k < idx0.len());
                        assert(idx0[k] == j);
                    }
                    if idx0.contains(j) {
                        let k = choose|k: int| 0 <= k < idx0.len() && idx0[k] == j;
                        assert(idx[k] == j);
                    }
                } else {
                    assert(idx[idx.len() - 1] == n);
                }
            }
            idx
        } else {
            assert(c == 0) by {
                lemma_message_written_iff(msgs, n, seqn_i, seqn_f, keeplist);
            }
            assert(sel0 + repeat(m, c) =~= sel0);
            assert forall|j: int| 0 <= j < msgs.len() implies (idx0.contains(j) <==> #[trigger] written(
                msgs,
                j,
                seqn_i,
                seqn_f,
                keeplist,
            )) by {
                if j == n {
                    if idx0.contains(j) {
                        let k = choose|k: int| 0 <= k < idx0.len() && idx0[k] == j;
                    }
                }
            }
            idx0
        }
    }
}

/// A `SEQN` message is written exactly when its sequence number (the
/// base-256 value of the first four bytes of its body) is at least `seqn_i`
/// and, when `seqn_f` is not negative, at most `seqn_f`, whatever `seqn_i` is.
pub proof fn lemma_seqn_written_iff_bounds(
    msgs: Seq<(Header, Seq<u8>)>,
    j: int,
    seqn_i: i64,
    seqn_f: i64,
    keeplist: Seq<Seq<u8>>,
)
    requires
        0 <= j < msgs.len(),
        is_seqn(msgs[j].0.fourcc),
        msgs[j].1.len() >= 4,
    ensures
        ({
            let b = msgs[j].1;
            let v = b[0] * 0x100_0000 + b[1] * 0x1_0000 + b[2] * 0x100 + b[3];
            written(msgs, j, seqn_i, seqn_f, keeplist) <==> (seqn_i <= v && (seqn_f >= 0 ==> v
                <= seqn_f))
        }),
{
    crate::messages::lemma_seqn_of_body_value(msgs[j].1);
}

/// Every `SEQN` message that truncation writes has a sequence number of at
/// least `seqn_i` and, when `seqn_f` is not negative, at most `seqn_f`.
pub proof fn lemma_trunc_output_seqn_bounds(
    msgs: Seq<(Header, Seq<u8>)>,
    seqn_i: i64,
    seqn_f: i64,
    keeplist: Seq<Seq<u8>>,
)
    ensures
        forall|k: int|
            0 <= k < trunc_selection(msgs, seqn_i, seqn_f, keeplist).len() && is_seqn(
                #[trigger] trunc_selection(msgs, seqn_i, seqn_f, keeplist)[k].0.fourcc,
            ) && trunc_selection(msgs, seqn_i, seqn_f, keeplist)[k].1.len() >= 4 ==> {
                let b = trunc_selection(msgs, seqn_i, seqn_f, keeplist)[k].1;
                let v = b[0] * 0x100_0000 + b[1] * 0x1_0000 + b[2] * 0x100 + b[3];
                seqn_i <= v && (seqn_f >= 0 ==> v <= seqn_f)
            },
{
    let sel = trunc_selection(msgs, seqn_i, seqn_f, keeplist);
    let idx = lemma_selection_in_order(msgs, seqn_i, seqn_f, keeplist);
    assert forall|k: int|
        0 <= k < sel.len() && is_seqn(#[trigger] sel[k].0.fourcc) && sel[k].1.len() >= 4 implies {
        let b = sel[k].1;
        let v = b[0] * 0x100_0000 + b[1] * 0x1_0000 + b[2] * 0x100 + b[3];
        seqn_i <= v && (seqn_f >= 0 ==> v <= seqn_f)
    } by {
        let j = idx[k];
        assert(idx.contains(j));
        assert(written(msgs, j, seqn_i, seqn_f, keeplist));
        lemma_seqn_written_iff_bounds(msgs, j, seqn_i, seqn_f, keeplist);
    }
}

} // verus!
