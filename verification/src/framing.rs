//! What decoding means: the packets framed within a sequence of bytes.
//!
//! A packet starts at the first flags byte. Whatever comes before it is
//! noise. The four bytes after it are the coordinates, whatever they hold.

use crate::protocol::{frame_event, is_flags_byte, is_frame, TouchEvent, FRAME_LEN};
use vstd::prelude::*;

verus! {

/// No byte of `bytes` can start a packet.
pub open spec fn is_noise(bytes: Seq<u8>) -> bool {
    forall|i: int| 0 <= i < bytes.len() ==> !is_flags_byte(#[trigger] bytes[i])
}

/// The number of bytes before the first flags byte of `bytes`; its length
/// when it holds none.
pub open spec fn noise_len(bytes: Seq<u8>) -> nat
    decreases bytes.len(),
{
    if bytes.len() == 0 || is_flags_byte(bytes[0]) {
        0
    } else {
        1 + noise_len(bytes.drop_first())
    }
}

/// The first event in `bytes` and the bytes that follow its packet, or
/// `None` when `bytes` ends before a packet is complete.
pub open spec fn decode_next(bytes: Seq<u8>) -> Option<(TouchEvent, Seq<u8>)> {
    let start = noise_len(bytes) as int;
    if start + FRAME_LEN <= bytes.len() {
        Some((frame_event(bytes.subrange(start, start + FRAME_LEN)), bytes.skip(start + FRAME_LEN)))
    } else {
        None
    }
}

/// Every event in `bytes`, in the order of their packets.
pub open spec fn decode_all(bytes: Seq<u8>) -> Seq<TouchEvent>
    decreases bytes.len(),
{
    match decode_next(bytes) {
        Some((event, rest)) => seq![event] + decode_all(rest),
        None => Seq::empty(),
    }
}

/// `noise_len` is the index of the first flags byte.
pub proof fn lemma_noise_len(bytes: Seq<u8>)
    ensures
        noise_len(bytes) <= bytes.len(),
        is_noise(bytes.take(noise_len(bytes) as int)),
        noise_len(bytes) < bytes.len() ==> is_flags_byte(bytes[noise_len(bytes) as int]),
    decreases bytes.len(),
{
    if bytes.len() == 0 || is_flags_byte(bytes[0]) {
    } else {
        let rest = bytes.drop_first();
        lemma_noise_len(rest);
        let n = noise_len(rest) as int;
        assert forall|i: int| 0 <= i < n + 1 implies !is_flags_byte(
            #[trigger] bytes.take(n + 1)[i],
        ) by {
            if i > 0 {
                assert(bytes.take(n + 1)[i] == rest.take(n)[i - 1]);
            }
        }
    }
}

/// Only the index of the first flags byte is one before which all is noise
/// and at which a flags byte stands or the bytes end.
pub proof fn lemma_noise_len_is(bytes: Seq<u8>, start: int)
    requires
        0 <= start <= bytes.len(),
        is_noise(bytes.take(start)),
        start < bytes.len() ==> is_flags_byte(bytes[start]),
    ensures
        noise_len(bytes) == start,
    decreases bytes.len(),
{
    if start == 0 {
    } else {
        assert(bytes.take(start)[0] == bytes[0]);
        let rest = bytes.drop_first();
        assert forall|i: int| 0 <= i < start - 1 implies !is_flags_byte(
            #[trigger] rest.take(start - 1)[i],
        ) by {
            assert(rest.take(start - 1)[i] == bytes.take(start)[i + 1]);
        }
        lemma_noise_len_is(rest, start - 1);
    }
}

/// Noise in front of `bytes` moves the first flags byte back by its length.
pub proof fn lemma_noise_prefix(noise: Seq<u8>, bytes: Seq<u8>)
    requires
        is_noise(noise),
    ensures
        noise_len(noise + bytes) == noise.len() + noise_len(bytes),
{
    let all = noise + bytes;
    let start = (noise.len() + noise_len(bytes)) as int;
    lemma_noise_len(bytes);
    assert forall|i: int| 0 <= i < start implies !is_flags_byte(#[trigger] all.take(start)[i]) by {
        if i >= noise.len() {
            assert(all.take(start)[i] == bytes.take(noise_len(bytes) as int)[i - noise.len()]);
        }
    }
    lemma_noise_len_is(all, start);
}

/// Noise in front of bytes changes nothing in what they decode to.
pub proof fn lemma_drop_noise(noise: Seq<u8>, bytes: Seq<u8>)
    requires
        is_noise(noise),
    ensures
        decode_next(noise + bytes) == decode_next(bytes),
        decode_all(noise + bytes) == decode_all(bytes),
{
    lemma_noise_prefix(noise, bytes);
    let all = noise + bytes;
    let start = noise_len(bytes) as int;
    let shift = noise.len() as int;
    if start + FRAME_LEN <= bytes.len() {
        assert(all.subrange(shift + start, shift + start + FRAME_LEN) == bytes.subrange(
            start,
            start + FRAME_LEN,
        ));
        assert(all.skip(shift + start + FRAME_LEN) == bytes.skip(start + FRAME_LEN));
    }
}

/// A packet at the front decodes to its event and leaves what follows it.
pub proof fn lemma_take_frame(frame: Seq<u8>, rest: Seq<u8>)
    requires
        is_frame(frame),
    ensures
        decode_next(frame + rest) == Some((frame_event(frame), rest)),
        decode_all(frame + rest) == seq![frame_event(frame)] + decode_all(rest),
{
    let all = frame + rest;
    assert(all.subrange(0, FRAME_LEN as int) == frame);
    assert(all.skip(FRAME_LEN as int) == rest);
}

/// Fewer bytes than a packet has hold no event.
pub proof fn lemma_too_short(bytes: Seq<u8>)
    requires
        bytes.len() < FRAME_LEN,
    ensures
        decode_next(bytes) is None,
        decode_all(bytes) == Seq::<TouchEvent>::empty(),
{
}

} // verus!
