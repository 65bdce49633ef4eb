//! What holds of the decoder on every input.

use crate::framing::{
    decode_all, decode_next, is_noise, lemma_drop_noise, lemma_noise_len, lemma_take_frame,
    lemma_too_short, noise_len,
};
use crate::machine::{feed, lemma_feed_decodes};
use crate::protocol::{
    direction_of, frame_event, is_flags_byte, is_frame, lemma_big_endian, lemma_press_bit,
    Direction, TouchEvent, FRAME_LEN,
};
use crate::stream::{delivered, lemma_delivered_add, ByteRead};
use vstd::prelude::*;

verus! {

/// Only two bytes can start a packet: the fixed bits leave the press bit
/// free and nothing else. The one with the press bit clear reports a
/// release, the one with the press bit set a press.
pub proof fn law_flags_bytes(byte: u8)
    ensures
        is_flags_byte(byte) <==> byte == 0b1000_1000 || byte == 0b1100_1000,
        direction_of(0b1000_1000) == Direction::Release,
        direction_of(0b1100_1000) == Direction::Press,
{
    assert((byte & 0x88 == 0x88 && !byte & 0x37 == 0x37) <==> (byte == 0x88 || byte == 0xC8))
        by (bit_vector);
    assert(0x88u8 & 0x40 != 0x40) by (bit_vector);
    assert(0xC8u8 & 0x40 == 0x40) by (bit_vector);
}

/// A packet alone decodes to one event. The direction is a press exactly
/// when bit `0x40` of the flags byte is set, and each coordinate is its high
/// byte shifted up by eight bits, or-ed with its low byte: the high byte
/// times 256 plus the low byte.
pub proof fn law_frame_decodes(flags: u8, x_high: u8, x_low: u8, y_high: u8, y_low: u8)
    requires
        is_flags_byte(flags),
    ensures
        ({
            let event = TouchEvent {
                direction: if flags & 0x40 != 0 {
                    Direction::Press
                } else {
                    Direction::Release
                },
                x: ((x_high as u16) << 8) | (x_low as u16),
                y: ((y_high as u16) << 8) | (y_low as u16),
            };
            &&& decode_next(seq![flags, x_high, x_low, y_high, y_low]) == Some(
                (event, Seq::<u8>::empty()),
            )
            &&& decode_all(seq![flags, x_high, x_low, y_high, y_low]) == seq![event]
            &&& event.x == x_high * 256 + x_low
            &&& event.y == y_high * 256 + y_low
        }),
{
    let frame = seq![flags, x_high, x_low, y_high, y_low];
    lemma_press_bit(flags);
    lemma_big_endian(x_high, x_low);
    lemma_big_endian(y_high, y_low);
    lemma_take_frame(frame, Seq::empty());
    lemma_too_short(Seq::empty());
    assert(frame + Seq::<u8>::empty() == frame);
}

/// Every event comes from a whole packet. The bytes split into noise, the
/// five bytes of the packet that encodes the event, and what is left over.
/// Where there is no event, the bytes are noise and then fewer bytes than a
/// packet has.
pub proof fn law_event_comes_from_a_frame(bytes: Seq<u8>)
    ensures
        ({
            let start = noise_len(bytes) as int;
            let frame = bytes.subrange(start, start + FRAME_LEN);
            &&& 0 <= start <= bytes.len()
            &&& is_noise(bytes.take(start))
            &&& match decode_next(bytes) {
                Some((event, rest)) => {
                    &&& is_frame(frame)
                    &&& event == frame_event(frame)
                    &&& bytes == bytes.take(start) + frame + rest
                },
                None => bytes.len() - start < FRAME_LEN,
            }
        }),
{
    lemma_noise_len(bytes);
}

/// One byte of garbage in front of a packet is passed over: the two decode
/// to the one event that the packet alone decodes to.
pub proof fn law_resynchronizes(
    garbage: u8,
    flags: u8,
    x_high: u8,
    x_low: u8,
    y_high: u8,
    y_low: u8,
)
    requires
        !is_flags_byte(garbage),
        is_flags_byte(flags),
    ensures
        decode_all(seq![garbage, flags, x_high, x_low, y_high, y_low]) == decode_all(
            seq![flags, x_high, x_low, y_high, y_low],
        ),
        decode_all(seq![garbage, flags, x_high, x_low, y_high, y_low]) == seq![
            frame_event(seq![flags, x_high, x_low, y_high, y_low]),
        ],
{
    let frame = seq![flags, x_high, x_low, y_high, y_low];
    lemma_drop_noise(seq![garbage], frame);
    assert(seq![garbage] + frame == seq![garbage, flags, x_high, x_low, y_high, y_low]);
    lemma_take_frame(frame, Seq::empty());
    lemma_too_short(Seq::empty());
    assert(frame + Seq::<u8>::empty() == frame);
}

/// Two packets, each with any amount of noise in front of it, decode to
/// exactly their two events, in order.
pub proof fn law_two_frames(
    first_noise: Seq<u8>,
    first: Seq<u8>,
    second_noise: Seq<u8>,
    second: Seq<u8>,
)
    requires
        is_noise(first_noise),
        is_frame(first),
        is_noise(second_noise),
        is_frame(second),
    ensures
        decode_all(first_noise + first + second_noise + second) == seq![
            frame_event(first),
            frame_event(second),
        ],
{
    let tail = second_noise + second;
    assert(first_noise + first + second_noise + second == first_noise + (first + tail));
    lemma_drop_noise(first_noise, first + tail);
    lemma_take_frame(first, tail);
    lemma_drop_noise(second_noise, second);
    lemma_take_frame(second, Seq::empty());
    lemma_too_short(Seq::empty());
    assert(second + Seq::<u8>::empty() == second);
}

/// A packet that is cut short holds no event, whatever noise came before
/// it: the bytes end before the packet is complete.
pub proof fn law_cut_frame_ends(noise: Seq<u8>, frame: Seq<u8>, kept: int)
    requires
        is_noise(noise),
        is_frame(frame),
        0 <= kept < FRAME_LEN,
    ensures
        decode_next(noise + frame.take(kept)) is None,
        decode_all(noise + frame.take(kept)) == Seq::<TouchEvent>::empty(),
{
    lemma_drop_noise(noise, frame.take(kept));
    lemma_too_short(frame.take(kept));
}

/// A failed read is passed over: with or without it the reads deliver the
/// same bytes, and so decode to the same events.
pub proof fn law_failed_read_is_skipped(before: Seq<ByteRead>, after: Seq<ByteRead>)
    ensures
        delivered(before + seq![ByteRead::Failed] + after) == delivered(before + after),
{
    lemma_delivered_add(before + seq![ByteRead::Failed], after);
    lemma_delivered_add(before, seq![ByteRead::Failed]);
    lemma_delivered_add(before, after);
    assert(delivered(seq![ByteRead::Failed]) == Seq::<u8>::empty()) by {
        reveal_with_fuel(delivered, 2);
    }
    assert(delivered(before) + Seq::<u8>::empty() == delivered(before));
}

/// Handing a run of reads to a decoder that starts out scanning gives out
/// the events in the bytes that the reads deliver.
pub proof fn law_push_decodes(reads: Seq<ByteRead>)
    ensures
        feed(Seq::empty(), reads).1 == decode_all(delivered(reads)),
{
    lemma_feed_decodes(Seq::empty(), reads);
    assert(Seq::<u8>::empty() + delivered(reads) == delivered(reads));
}

} // verus!
