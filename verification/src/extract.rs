//! Picking the messages of one type out of a telemetry log.

use crate::log::{log_messages, messages_view, split_log, Message};
use crate::messages::{is_seqn, Header};
use crate::stats::{
    count_code, fourcc_code, lemma_count_code_bound, lemma_fourcc_code_injective, message_counts_of,
};
use vstd::prelude::*;
use vstd::slice::slice_to_vec;

verus! {

/// Whether a message has the four character code `fourcc`.
pub open spec fn has_fourcc(fourcc: [u8; 4]) -> spec_fn((Header, Seq<u8>)) -> bool {
    |m: (Header, Seq<u8>)| m.0.fourcc@ == fourcc@
}

/// Whether two four character codes are equal.
fn same_fourcc(a: &[u8; 4], b: &[u8; 4]) -> (r: bool)
    ensures
        r == (a@ == b@),
{
    let r = a[0] == b[0] && a[1] == b[1] && a[2] == b[2] && a[3] == b[3];
    proof {
        if r {
            assert(a@ =~= b@);
        }
    }
    r
}

/// The complete messages of a log whose four character code is
/// `fourcc_to_match`, in order, each with its header (and so its timestamp)
/// and its body.
pub fn messages_of_type(log: &[u8], fourcc_to_match: &[u8; 4]) -> (r: Vec<Message>)
    ensures
        messages_view(r@) == log_messages(log@).filter(has_fourcc(*fourcc_to_match)),
{
    let (messages, _) = split_log(log);
    let ghost msgs = messages_view(messages@);
    let ghost pred = has_fourcc(*fourcc_to_match);
    let mut out: Vec<Message> = Vec::new();
    let mut i: usize = 0;
    assert(msgs.take(0) =~= Seq::<(Header, Seq<u8>)>::empty());
    while i < messages.len()
        invariant
            i <= messages@.len(),
            msgs == messages_view(messages@),
            msgs == log_messages(log@),
            pred == has_fourcc(*fourcc_to_match),
            messages_view(out@) == msgs.take(i as int).filter(pred),
        decreases messages@.len() - i,
    {
        let m = &messages[i];
        proof {
            reveal(Seq::filter);
            assert(msgs[i as int] == m@);
            assert(msgs.take(i + 1).drop_last() =~= msgs.take(i as int));
            assert(msgs.take(i + 1).last() == m@);
        }
        if same_fourcc(&m.header.fourcc, fourcc_to_match) {
            let body = slice_to_vec(m.body.as_slice());
            let ghost before = out@;
            out.push(Message { header: m.header, body });
            assert(messages_view(out@) =~= messages_view(before).push(m@));
            assert(pred(m@));
            assert(msgs.take(i + 1).filter(pred) == msgs.take(i as int).filter(pred).push(m@));
        } else {
            assert(!pred(m@));
            assert(msgs.take(i + 1).filter(pred) == msgs.take(i as int).filter(pred));
        }
        i = i + 1;
    }
    assert(msgs.take(messages@.len() as int) =~= msgs);
    out
}

/// The messages of one type are as many as `get_stats` counts for its code:
/// one CSV line can come from each of them.
pub proof fn lemma_type_count_matches_stats(msgs: Seq<(Header, Seq<u8>)>, fourcc: [u8; 4])
    ensures
        msgs.filter(has_fourcc(fourcc)).len() == count_code(msgs, fourcc_code(fourcc)),
        !is_seqn(fourcc) && msgs.len() <= u64::MAX ==> {
            let counts = message_counts_of(msgs);
            let n = msgs.filter(has_fourcc(fourcc)).len();
            &&& counts.contains_key(fourcc_code(fourcc)) ==> counts[fourcc_code(fourcc)] == n
            &&& !counts.contains_key(fourcc_code(fourcc)) ==> n == 0
        },
    decreases msgs.len(),
{
    reveal(Seq::filter);
    if msgs.len() > 0 {
        lemma_type_count_matches_stats(msgs.drop_last(), fourcc);
        lemma_fourcc_code_injective(msgs.last().0.fourcc, fourcc);
    }
    lemma_fourcc_code_injective(fourcc, fourcc);
    lemma_count_code_bound(msgs, fourcc_code(fourcc));
}

} // verus!
