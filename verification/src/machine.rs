//! Decoding by being handed reads one at a time.
//!
//! The caller owns the byte source, makes each read and hands its outcome to
//! the decoder, which keeps nothing but the bytes of the packet in progress.

use crate::framing::{decode_all, lemma_drop_noise};
use crate::protocol::{
    coordinate, frame_event, is_flags_byte, is_valid_flags, Direction, TouchEvent, FRAME_LEN,
};
use crate::stream::{delivered, ByteRead};
use vstd::prelude::*;

verus! {

/// `window` can be the bytes of a packet in progress: fewer than a whole
/// packet, the first of them a flags byte.
pub open spec fn is_window(window: Seq<u8>) -> bool {
    window.len() < FRAME_LEN && (window.len() > 0 ==> is_flags_byte(window[0]))
}

/// One step of the decoder: the window after a read, and the event that the
/// read completes, if it completes one.
///
/// With an empty window the decoder is scanning: a flags byte opens a
/// packet, anything else is dropped. With an open packet it is assembling:
/// every byte is taken, and the fifth closes the packet. A failed read
/// changes nothing.
pub open spec fn step(window: Seq<u8>, read: ByteRead) -> (Seq<u8>, Option<TouchEvent>) {
    match read {
        ByteRead::Failed => (window, None),
        ByteRead::Byte(byte) => if window.len() == 0 {
            if is_flags_byte(byte) {
                (seq![byte], None)
            } else {
                (window, None)
            }
        } else if window.len() + 1 < FRAME_LEN {
            (window.push(byte), None)
        } else {
            (Seq::empty(), Some(frame_event(window.push(byte))))
        },
    }
}

/// The steps of the decoder over a run of reads: the window that is left and
/// the events that came out, in order.
pub open spec fn feed(window: Seq<u8>, reads: Seq<ByteRead>) -> (Seq<u8>, Seq<TouchEvent>)
    decreases reads.len(),
{
    if reads.len() == 0 {
        (window, Seq::empty())
    } else {
        let (next, event) = step(window, reads[0]);
        let (last, events) = feed(next, reads.drop_first());
        match event {
            Some(event) => (last, seq![event] + events),
            None => (last, events),
        }
    }
}

/// The events that come out of the steps are the events in the bytes of the
/// window followed by the bytes that the reads deliver.
pub proof fn lemma_feed_decodes(window: Seq<u8>, reads: Seq<ByteRead>)
    requires
        is_window(window),
    ensures
        feed(window, reads).1 == decode_all(window + delivered(reads)),
        is_window(feed(window, reads).0),
    decreases reads.len(),
{
    if reads.len() > 0 {
        let rest = reads.drop_first();
        lemma_feed_decodes(step(window, reads[0]).0, rest);
        if let ByteRead::Byte(byte) = reads[0] {
            let tail = delivered(rest);
            let all = window + delivered(reads);
            assert(all == window.push(byte) + tail);
            if window.len() == 0 && !is_flags_byte(byte) {
                lemma_drop_noise(seq![byte], tail);
            }
            if window.len() + 1 == FRAME_LEN {
                assert(all.subrange(0, FRAME_LEN as int) == window.push(byte));
                assert(all.skip(FRAME_LEN as int) == tail);
            }
        }
    }
}

/// A decoder that is handed the outcome of each read and gives out an event
/// whenever a read completes a packet.
///
/// It holds the first four bytes of the packet in progress and nothing else.
pub struct PacketDecoder {
    filled: u8,
    flags: u8,
    x_high: u8,
    x_low: u8,
    y_high: u8,
}

impl View for PacketDecoder {
    type V = Seq<u8>;

    /// The bytes of the packet in progress; none while the decoder is
    /// scanning for a flags byte.
    closed spec fn view(&self) -> Seq<u8> {
        seq![self.flags, self.x_high, self.x_low, self.y_high].take(self.filled as int)
    }
}

impl PacketDecoder {
    #[verifier::type_invariant]
    spec fn packet_in_progress(self) -> bool {
        self.filled < FRAME_LEN && (self.filled > 0 ==> is_flags_byte(self.flags))
    }

    /// A decoder that is scanning for the start of a packet.
    pub fn new() -> (decoder: PacketDecoder)
        ensures
            decoder@ == Seq::<u8>::empty(),
    {
        PacketDecoder { filled: 0, flags: 0, x_high: 0, x_low: 0, y_high: 0 }
    }

    /// Takes the outcome of the next read and returns the event that it
    /// completes, if any.
    pub fn push(&mut self, read: ByteRead) -> (event: Option<TouchEvent>)
        ensures
            final(self)@ == step(old(self)@, read).0,
            event == step(old(self)@, read).1,
            is_window(old(self)@),
            is_window(final(self)@),
    {
        proof {
            use_type_invariant(&*self);
        }
        match read {
            ByteRead::Failed => None,
            ByteRead::Byte(byte) => {
                if self.filled == 0 {
                    if is_valid_flags(byte) {
                        self.flags = byte;
                        self.filled = 1;
                    }
                    None
                } else if self.filled == 1 {
                    self.x_high = byte;
                    self.filled = 2;
                    None
                } else if self.filled == 2 {
                    self.x_low = byte;
                    self.filled = 3;
                    None
                } else if self.filled == 3 {
                    self.y_high = byte;
                    self.filled = 4;
                    None
                } else {
                    assert(self@.push(byte) == seq![
                        self.flags,
                        self.x_high,
                        self.x_low,
                        self.y_high,
                        byte,
                    ]);
                    self.filled = 0;
                    Some(
                        TouchEvent {
                            direction: Direction::from_flags(self.flags),
                            x: coordinate(self.x_high, self.x_low),
                            y: coordinate(self.y_high, byte),
                        },
                    )
                }
            },
        }
    }
}

} // verus!
