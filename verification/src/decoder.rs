//! Decoding by pulling bytes from a source.

use crate::framing::{
    decode_all, decode_next, is_noise, lemma_noise_len, lemma_noise_len_is, noise_len,
};
use crate::protocol::{
    coordinate, direction_of, is_valid_flags, Direction, TouchEvent, FRAME_LEN,
};
use crate::stream::{lemma_reads_for, lemma_reads_for_add, ByteStream};
use vstd::prelude::*;

verus! {

/// The byte source ended before a packet was complete.
///
/// This ends the decoding for good: reading on cannot bring another byte.
#[derive(Clone, Copy, Debug, PartialEq, Eq, Structural)]
pub struct StreamEnded;

/// Reads up to the first flags byte and returns the direction it reports.
///
/// Every byte before it is dropped as noise. If the source ends before a
/// flags byte comes, all of it has been read.
pub fn read_flags(bytes: &mut ByteStream) -> (result: Result<Direction, StreamEnded>)
    ensures
        result == if noise_len(old(bytes).bytes()) < old(bytes).bytes().len() {
            Ok(direction_of(old(bytes).bytes()[noise_len(old(bytes).bytes()) as int]))
        } else {
            Err(StreamEnded)
        },
        final(bytes)@ == old(bytes).after(noise_len(old(bytes).bytes()) + 1),
        result is Ok ==> final(bytes).bytes() == old(bytes).bytes().skip(
            noise_len(old(bytes).bytes()) as int + 1,
        ),
        result is Ok ==> final(bytes)@.len() < old(bytes)@.len(),
        result is Err ==> final(bytes)@.len() == 0,
{
    let ghost all = bytes.bytes();
    let ghost mut dropped: nat = 0;
    loop
        invariant
            dropped <= all.len(),
            all == old(bytes).bytes(),
            is_noise(all.take(dropped as int)),
            bytes.bytes() == all.skip(dropped as int),
            bytes@ == old(bytes).after(dropped),
            dropped > 0 ==> bytes@.len() < old(bytes)@.len(),
        decreases bytes@.len(),
    {
        proof {
            lemma_reads_for_add(old(bytes)@, dropped, 1);
        }
        match bytes.next_byte() {
            None => {
                proof {
                    assert(all.take(dropped as int) == all);
                    lemma_noise_len_is(all, all.len() as int);
                }
                return Err(StreamEnded);
            },
            Some(byte) => {
                if is_valid_flags(byte) {
                    proof {
                        lemma_noise_len_is(all, dropped as int);
                        assert(bytes.bytes() == all.skip(dropped as int + 1));
                    }
                    return Ok(Direction::from_flags(byte));
                }
                proof {
                    assert(is_noise(all.take(dropped as int + 1))) by {
                        assert(all.take(dropped as int) == all.take(dropped as int + 1).drop_last());
                    }
                    assert(bytes.bytes() == all.skip(dropped as int + 1));
                    dropped = dropped + 1;
                }
            },
        }
    }
}

/// Decodes the next event that the source holds.
///
/// Reads up to the first flags byte, then the four bytes of the two
/// coordinates, whatever they hold. Fails with [`StreamEnded`] when the source
/// ends before the packet is complete; all of the source has then been read.
pub fn next_event(stream: &mut ByteStream) -> (result: Result<TouchEvent, StreamEnded>)
    ensures
        result == match decode_next(old(stream).bytes()) {
            Some((event, _)) => Ok(event),
            None => Err(StreamEnded),
        },
        final(stream)@ == old(stream).after(noise_len(old(stream).bytes()) + FRAME_LEN as nat),
        decode_next(old(stream).bytes()) matches Some((_, rest)) ==> final(stream).bytes() == rest,
        result is Ok ==> final(stream)@.len() < old(stream)@.len(),
        result is Err ==> final(stream)@.len() == 0,
{
    let ghost reads = stream@;
    let ghost all = stream.bytes();
    let ghost start = noise_len(all);
    proof {
        lemma_noise_len(all);
        lemma_reads_for(reads, start + 5);
        lemma_reads_for_add(reads, start + 1, 1);
        lemma_reads_for_add(reads, start + 2, 1);
        lemma_reads_for_add(reads, start + 3, 1);
        lemma_reads_for_add(reads, start + 4, 1);
    }
    let direction = match read_flags(stream) {
        Ok(direction) => direction,
        Err(ended) => {
            proof {
                lemma_reads_for(reads, start + 1);
            }
            return Err(ended);
        },
    };
    let x_high = match stream.next_byte() {
        Some(byte) => byte,
        None => {
            return Err(StreamEnded);
        },
    };
    let x_low = match stream.next_byte() {
        Some(byte) => byte,
        None => {
            return Err(StreamEnded);
        },
    };
    let y_high = match stream.next_byte() {
        Some(byte) => byte,
        None => {
            return Err(StreamEnded);
        },
    };
    let y_low = match stream.next_byte() {
        Some(byte) => byte,
        None => {
            return Err(StreamEnded);
        },
    };
    Ok(TouchEvent { direction, x: coordinate(x_high, x_low), y: coordinate(y_high, y_low) })
}

/// Decodes every event that the source holds, reading it to its end.
pub fn decode_stream(stream: &mut ByteStream) -> (events: Vec<TouchEvent>)
    ensures
        events@ == decode_all(old(stream).bytes()),
        final(stream)@.len() == 0,
{
    let mut events: Vec<TouchEvent> = Vec::new();
    loop
        invariant
            decode_all(old(stream).bytes()) == events@ + decode_all(stream.bytes()),
        decreases stream@.len(),
    {
        let ghost before = events@;
        match next_event(stream) {
            Ok(event) => {
                events.push(event);
                assert(events@ + decode_all(stream.bytes()) == before + (seq![event] + decode_all(
                    stream.bytes(),
                )));
            },
            Err(_) => {
                return events;
            },
        }
    }
}

} // verus!
