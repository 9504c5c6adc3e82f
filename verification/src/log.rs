//! A telemetry log: messages stored one after the other, each a header
//! followed by a body of the size that the header gives.

use crate::messages::{
    header_bytes, header_fits, header_from_bytes, lemma_bytes_roundtrip, lemma_header_roundtrip,
    read_header, Header, SIZE_OF_HEADER,
};
use vstd::prelude::*;
use vstd::slice::{slice_subrange, slice_to_vec};

verus! {

/// A message of a log: its header and its body.
pub struct Message {
    pub header: Header,
    pub body: Vec<u8>,
}

impl View for Message {
    type V = (Header, Seq<u8>);

    open spec fn view(&self) -> (Header, Seq<u8>) {
        (self.header, self.body@)
    }
}

/// The views of a sequence of messages.
pub open spec fn messages_view(v: Seq<Message>) -> Seq<(Header, Seq<u8>)> {
    v.map_values(|m: Message| m@)
}

/// The number of bytes that a message with header `h` takes in a log.
pub open spec fn message_len(h: Header) -> int {
    SIZE_OF_HEADER + h.size
}

/// The complete messages at the start of `s`, in order. Reading stops at the
/// first point where fewer bytes are left than a header needs, or than the
/// body that the last header announces.
pub open spec fn log_messages(s: Seq<u8>) -> Seq<(Header, Seq<u8>)>
    decreases s.len(),
{
    if s.len() < SIZE_OF_HEADER {
        Seq::empty()
    } else {
        let h = header_from_bytes(s);
        if s.len() < message_len(h) {
            Seq::empty()
        } else {
            seq![(h, s.subrange(SIZE_OF_HEADER as int, message_len(h)))] + log_messages(
                s.skip(message_len(h)),
            )
        }
    }
}

/// The number of bytes at the start of `s` that its complete messages take.
pub open spec fn log_consumed(s: Seq<u8>) -> nat
    decreases s.len(),
{
    if s.len() < SIZE_OF_HEADER {
        0
    } else {
        let h = header_from_bytes(s);
        if s.len() < message_len(h) {
            0
        } else {
            (message_len(h) + log_consumed(s.skip(message_len(h)))) as nat
        }
    }
}

/// The bytes that encode one message: its header, then its body.
pub open spec fn message_bytes(m: (Header, Seq<u8>)) -> Seq<u8> {
    header_bytes(m.0) + m.1
}

/// The bytes that encode a sequence of messages, one after the other.
pub open spec fn log_bytes(msgs: Seq<(Header, Seq<u8>)>) -> Seq<u8>
    decreases msgs.len(),
{
    if msgs.len() == 0 {
        Seq::empty()
    } else {
        message_bytes(msgs[0]) + log_bytes(msgs.drop_first())
    }
}

/// A message that can be written and read back: its header fits the wire
/// and announces exactly the size of its body.
pub open spec fn message_fits(m: (Header, Seq<u8>)) -> bool {
    header_fits(m.0) && m.0.size == m.1.len()
}

/// Appending a message to a sequence appends its bytes to their encoding.
pub proof fn lemma_log_bytes_push(msgs: Seq<(Header, Seq<u8>)>, m: (Header, Seq<u8>))
    ensures
        log_bytes(msgs.push(m)) == log_bytes(msgs) + message_bytes(m),
    decreases msgs.len(),
{
    if msgs.len() == 0 {
        assert(msgs.push(m).drop_first() =~= Seq::<(Header, Seq<u8>)>::empty());
        assert(log_bytes(msgs.push(m).drop_first()) == Seq::<u8>::empty());
        assert(log_bytes(msgs.push(m)) =~= message_bytes(m));
    } else {
        lemma_log_bytes_push(msgs.drop_first(), m);
        assert(msgs.push(m).drop_first() =~= msgs.drop_first().push(m));
        assert(log_bytes(msgs.push(m)) =~= log_bytes(msgs) + message_bytes(m));
    }
}

/// A message that fits, followed by any bytes, reads as that message and
/// then the messages of those bytes.
pub proof fn lemma_log_messages_cons(m: (Header, Seq<u8>), rest: Seq<u8>)
    requires
        message_fits(m),
    ensures
        log_messages(message_bytes(m) + rest) == seq![m] + log_messages(rest),
        log_consumed(message_bytes(m) + rest) == message_bytes(m).len() + log_consumed(rest),
{
    let s = message_bytes(m) + rest;
    let hb = header_bytes(m.0);
    lemma_header_roundtrip(m.0);
    assert(s.subrange(0, SIZE_OF_HEADER as int) =~= hb);
    assert(header_from_bytes(s) == header_from_bytes(hb)) by {
        assert(s[0] == hb[0] && s[1] == hb[1] && s[2] == hb[2] && s[3] == hb[3]);
        assert(s.subrange(4, 10) =~= hb.subrange(4, 10));
        assert(s.subrange(10, 12) =~= hb.subrange(10, 12));
    }
    assert(s.subrange(SIZE_OF_HEADER as int, message_len(m.0)) =~= m.1);
    assert(s.skip(message_len(m.0)) =~= rest);
}

/// Encoding messages that fit and reading them back gives those messages;
/// bytes that follow are read on after them.
pub proof fn lemma_read_written_log(msgs: Seq<(Header, Seq<u8>)>, rest: Seq<u8>)
    requires
        forall|i: int| 0 <= i < msgs.len() ==> message_fits(#[trigger] msgs[i]),
    ensures
        log_messages(log_bytes(msgs) + rest) == msgs + log_messages(rest),
        log_consumed(log_bytes(msgs) + rest) == log_bytes(msgs).len() + log_consumed(rest),
    decreases msgs.len(),
{
    if msgs.len() == 0 {
        assert(log_bytes(msgs) + rest =~= rest);
        assert(msgs + log_messages(rest) =~= log_messages(rest));
    } else {
        let tail = msgs.drop_first();
        assert forall|i: int| 0 <= i < tail.len() implies message_fits(#[trigger] tail[i]) by {
            assert(tail[i] == msgs[i + 1]);
        }
        lemma_read_written_log(tail, rest);
        assert(log_bytes(msgs) + rest =~= message_bytes(msgs[0]) + (log_bytes(tail) + rest));
        assert(message_fits(msgs[0]));
        lemma_log_messages_cons(msgs[0], log_bytes(tail) + rest);
        assert(msgs =~= seq![msgs[0]] + tail);
        assert(msgs + log_messages(rest) =~= seq![msgs[0]] + (tail + log_messages(rest)));
    }
}

/// A log of encoded messages that fit reads back as exactly those messages,
/// every byte of it consumed.
pub proof fn lemma_log_roundtrip(msgs: Seq<(Header, Seq<u8>)>)
    requires
        forall|i: int| 0 <= i < msgs.len() ==> message_fits(#[trigger] msgs[i]),
    ensures
        log_messages(log_bytes(msgs)) == msgs,
        log_consumed(log_bytes(msgs)) == log_bytes(msgs).len(),
{
    lemma_read_written_log(msgs, Seq::empty());
    assert(log_bytes(msgs) + Seq::<u8>::empty() =~= log_bytes(msgs));
    assert(msgs + Seq::<(Header, Seq<u8>)>::empty() =~= msgs);
}

/// Every message read from a log fits, and encoding the messages read gives
/// back the bytes that they were read from.
pub proof fn lemma_log_messages_reencode(s: Seq<u8>)
    ensures
        forall|i: int|
            0 <= i < log_messages(s).len() ==> message_fits(#[trigger] log_messages(s)[i]),
        log_bytes(log_messages(s)) == s.take(log_consumed(s) as int),
        log_consumed(s) <= s.len(),
    decreases s.len(),
{
    if s.len() >= SIZE_OF_HEADER {
        let h = header_from_bytes(s);
        if s.len() >= message_len(h) {
            let rest = s.skip(message_len(h));
            lemma_log_messages_reencode(rest);
            lemma_bytes_roundtrip(s);
            let m = (h, s.subrange(SIZE_OF_HEADER as int, message_len(h)));
            let msgs = log_messages(s);
            assert(msgs =~= seq![m] + log_messages(rest));
            assert(msgs.drop_first() =~= log_messages(rest));
            assert forall|i: int| 0 <= i < msgs.len() implies message_fits(#[trigger] msgs[i]) by {
                if i > 0 {
                    assert(msgs[i] == log_messages(rest)[i - 1]);
                }
            }
            assert(log_bytes(msgs) =~= s.take(log_consumed(s) as int));
        } else {
            assert(log_bytes(log_messages(s)) =~= s.take(0));
        }
    } else {
        assert(log_bytes(log_messages(s)) =~= s.take(0));
    }
}

/// Splits a log into its complete messages, in order, and gives the number
/// of bytes they take; reading stops as `log_messages` says.
pub fn split_log(log: &[u8]) -> (r: (Vec<Message>, usize))
    ensures
        messages_view(r.0@) == log_messages(log@),
        r.1 == log_consumed(log@),
{
    let mut out: Vec<Message> = Vec::new();
    let mut pos: usize = 0;
    assert(log@.skip(0) =~= log@);
    loop
        invariant
            pos <= log@.len(),
            log_messages(log@) == messages_view(out@) + log_messages(log@.skip(pos as int)),
            log_consumed(log@) == pos + log_consumed(log@.skip(pos as int)),
        ensures
            log_messages(log@) == messages_view(out@),
            log_consumed(log@) == pos,
        decreases log@.len() - pos,
    {
        let ghost rest = log@.skip(pos as int);
        let remaining = slice_subrange(log, pos, log.len());
        assert(remaining@ =~= rest);
        let header = match read_header(remaining) {
            Ok(h) => h,
            Err(_) => {
                assert(messages_view(out@) + log_messages(rest) =~= messages_view(out@));
                break ;
            },
        };
        if log.len() - pos - SIZE_OF_HEADER < header.size {
            assert(messages_view(out@) + log_messages(rest) =~= messages_view(out@));
            break ;
        }
        let body_start = pos + SIZE_OF_HEADER;
        let body_end = body_start + header.size;
        let body = slice_to_vec(slice_subrange(log, body_start, body_end));
        proof {
            assert(body@ =~= rest.subrange(SIZE_OF_HEADER as int, message_len(header)));
            assert(rest.skip(message_len(header)) =~= log@.skip(body_end as int));
        }
        let ghost before = out@;
        out.push(Message { header, body });
        proof {
            assert(messages_view(out@) =~= messages_view(before).push((header, body@)));
            assert(messages_view(before) + log_messages(rest) =~= messages_view(out@)
                + log_messages(log@.skip(body_end as int)));
        }
        pos = body_end;
    }
    (out, pos)
}

/// A strict prefix of the encoding of a message that fits holds no complete
/// message.
pub proof fn lemma_partial_message_empty(m: (Header, Seq<u8>), k: int)
    requires
        message_fits(m),
        0 <= k < message_bytes(m).len(),
    ensures
        log_messages(message_bytes(m).take(k)).len() == 0,
        log_consumed(message_bytes(m).take(k)) == 0,
{
    let p = message_bytes(m).take(k);
    if p.len() >= SIZE_OF_HEADER {
        let hb = header_bytes(m.0);
        lemma_header_roundtrip(m.0);
        assert(header_from_bytes(p) == header_from_bytes(hb)) by {
            assert(p[0] == hb[0] && p[1] == hb[1] && p[2] == hb[2] && p[3] == hb[3]);
            assert(p.subrange(4, 10) =~= hb.subrange(4, 10));
            assert(p.subrange(10, 12) =~= hb.subrange(10, 12));
        }
    }
}

/// A log of complete messages followed by the start of one more message
/// reads as the log alone: the incomplete message is dropped.
pub proof fn lemma_partial_tail_ignored(log: Seq<u8>, m: (Header, Seq<u8>), k: int)
    requires
        log_consumed(log) == log.len(),
        message_fits(m),
        0 <= k < message_bytes(m).len(),
    ensures
        log_messages(log + message_bytes(m).take(k)) == log_messages(log),
        log_consumed(log + message_bytes(m).take(k)) == log.len(),
{
    let p = message_bytes(m).take(k);
    lemma_log_messages_reencode(log);
    assert(log.take(log.len() as int) =~= log);
    lemma_read_written_log(log_messages(log), p);
    lemma_partial_message_empty(m, k);
    assert(log_messages(log) + log_messages(p) =~= log_messages(log));
}

} // verus!
