//! The reply of the echo responder: each datagram is answered with the
//! message it carries, an empty one with the last message that came.

use vstd::prelude::*;

verus! {

/// The byte that pads a datagram.
pub const NUL: u8 = 0;

/// The byte that ends a line.
pub const LINE_FEED: u8 = 10;

/// `bytes` without the run of `byte` that it starts with.
pub open spec fn without_leading(bytes: Seq<u8>, byte: u8) -> Seq<u8>
    decreases bytes.len(),
{
    if bytes.len() > 0 && bytes[0] == byte {
        without_leading(bytes.drop_first(), byte)
    } else {
        bytes
    }
}

/// `bytes` without the run of `byte` that it ends with.
pub open spec fn without_trailing(bytes: Seq<u8>, byte: u8) -> Seq<u8>
    decreases bytes.len(),
{
    if bytes.len() > 0 && bytes.last() == byte {
        without_trailing(bytes.drop_last(), byte)
    } else {
        bytes
    }
}

/// `bytes` without the runs of `byte` at its two ends.
pub open spec fn trimmed(bytes: Seq<u8>, byte: u8) -> Seq<u8> {
    without_trailing(without_leading(bytes, byte), byte)
}

/// The message that a datagram carries: its bytes without the padding at
/// both ends, and then without the line feeds at both ends.
pub open spec fn message_of(datagram: Seq<u8>) -> Seq<u8> {
    trimmed(trimmed(datagram, NUL), LINE_FEED)
}

/// What is sent back for a datagram: the message that it carries, or, where
/// it carries none, the last message that one did carry.
pub open spec fn reply_to(datagram: Seq<u8>, last_message: Seq<u8>) -> Seq<u8> {
    if message_of(datagram).len() == 0 {
        last_message
    } else {
        message_of(datagram)
    }
}

/// A copy of `bytes` without the runs of `byte` at its two ends.
pub fn trim_matches(bytes: &Vec<u8>, byte: u8) -> (kept: Vec<u8>)
    ensures
        kept@ == trimmed(bytes@, byte),
{
    let mut start: usize = 0;
    proof {
        assert(bytes@.subrange(0, bytes@.len() as int) =~= bytes@);
    }
    while start < bytes.len() && bytes[start] == byte
        invariant
            start <= bytes@.len(),
            without_leading(bytes@, byte) == without_leading(
                bytes@.subrange(start as int, bytes@.len() as int),
                byte,
            ),
        decreases bytes@.len() - start,
    {
        proof {
            assert(bytes@.subrange(start as int, bytes@.len() as int).drop_first()
                =~= bytes@.subrange(start + 1, bytes@.len() as int));
        }
        start += 1;
    }
    let ghost rest = bytes@.subrange(start as int, bytes@.len() as int);
    let mut end: usize = bytes.len();
    while end > start && bytes[end - 1] == byte
        invariant
            start <= end <= bytes@.len(),
            rest == bytes@.subrange(start as int, bytes@.len() as int),
            without_trailing(rest, byte) == without_trailing(
                bytes@.subrange(start as int, end as int),
                byte,
            ),
        decreases end,
    {
        proof {
            assert(bytes@.subrange(start as int, end as int).drop_last() =~= bytes@.subrange(
                start as int,
                end - 1,
            ));
        }
        end -= 1;
    }
    let mut kept: Vec<u8> = Vec::new();
    let mut next: usize = start;
    while next < end
        invariant
            start <= next <= end <= bytes@.len(),
            kept@ == bytes@.subrange(start as int, next as int),
        decreases end - next,
    {
        kept.push(bytes[next]);
        proof {
            assert(kept@ =~= bytes@.subrange(start as int, next + 1));
        }
        next += 1;
    }
    kept
}

/// Picks what to send back for a datagram and remembers it as the last
/// message.
pub fn echo_reply(datagram: &Vec<u8>, last_message: &mut Vec<u8>) -> (reply: Vec<u8>)
    ensures
        reply@ == reply_to(datagram@, old(last_message)@),
        final(last_message)@ == reply@,
{
    let unpadded = trim_matches(datagram, NUL);
    let message = trim_matches(&unpadded, LINE_FEED);
    if message.len() == 0 {
        last_message.clone()
    } else {
        *last_message = message.clone();
        message
    }
}

} // verus!
