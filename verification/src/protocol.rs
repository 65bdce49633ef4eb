//! The wire format: the flags byte, the coordinates and the decoded event.

use vstd::prelude::*;

verus! {

/// Bits that are set in every flags byte.
pub const ON_MASK: u8 = 0b1000_1000;

/// Bits that are clear in every flags byte.
pub const OFF_MASK: u8 = 0b0011_0111;

/// Bit of the flags byte that is set for a press and clear for a release.
pub const PRESS_BIT: u8 = 0b0100_0000;

/// Number of bytes in a packet.
pub const FRAME_LEN: usize = 5;

/// Whether the panel was touched or let go.
#[derive(Clone, Copy, Debug, PartialEq, Eq, Structural)]
pub enum Direction {
    Press,
    Release,
}

/// One decoded packet: a change of touch direction at absolute coordinates.
///
/// The coordinates are what the panel reported, neither clamped nor
/// calibrated.
#[derive(Clone, Copy, Debug, PartialEq, Eq, Structural)]
pub struct TouchEvent {
    pub direction: Direction,
    pub x: u16,
    pub y: u16,
}

/// All bits of `flags` are set in `value`.
pub open spec fn has_flags(value: u8, flags: u8) -> bool {
    value & flags == flags
}

/// `byte` can start a packet: the always-one bits are all set and the
/// always-zero bits are all clear.
pub open spec fn is_flags_byte(byte: u8) -> bool {
    has_flags(byte, ON_MASK) && has_flags(!byte, OFF_MASK)
}

/// The direction that a flags byte reports.
pub open spec fn direction_of(flags: u8) -> Direction {
    if has_flags(flags, PRESS_BIT) {
        Direction::Press
    } else {
        Direction::Release
    }
}

/// The 16-bit integer whose big-endian encoding is `high`, `low`.
pub open spec fn big_endian(high: u8, low: u8) -> u16 {
    ((high as u16) << 8) | (low as u16)
}

/// `frame` is a whole packet: five bytes, the first a flags byte.
pub open spec fn is_frame(frame: Seq<u8>) -> bool {
    frame.len() == FRAME_LEN && is_flags_byte(frame[0])
}

/// The event that a packet encodes.
pub open spec fn frame_event(frame: Seq<u8>) -> TouchEvent
    recommends
        is_frame(frame),
{
    TouchEvent {
        direction: direction_of(frame[0]),
        x: big_endian(frame[1], frame[2]),
        y: big_endian(frame[3], frame[4]),
    }
}

/// The press bit is a single bit: it is set exactly when masking with it
/// leaves anything.
pub proof fn lemma_press_bit(flags: u8)
    ensures
        direction_of(flags) == Direction::Press <==> flags & 0x40 != 0,
{
    assert((flags & 0x40 == 0x40) <==> (flags & 0x40 != 0)) by (bit_vector);
}

/// A big-endian pair is the high byte times 256 plus the low byte.
pub proof fn lemma_big_endian(high: u8, low: u8)
    ensures
        big_endian(high, low) == high * 256 + low,
{
    assert((((high as u16) << 8) | (low as u16)) == high * 256 + low) by (bit_vector);
}

/// Tests that all bits of `flags` are set in `value`.
pub fn check_flags(value: u8, flags: u8) -> (set: bool)
    ensures
        set == has_flags(value, flags),
{
    (value & flags) == flags
}

/// Tests whether `byte` can start a packet.
pub fn is_valid_flags(byte: u8) -> (valid: bool)
    ensures
        valid == is_flags_byte(byte),
{
    check_flags(byte, ON_MASK) && check_flags(!byte, OFF_MASK)
}

impl Direction {
    /// Reads the direction off a flags byte.
    pub fn from_flags(flags: u8) -> (direction: Direction)
        ensures
            direction == direction_of(flags),
    {
        if check_flags(flags, PRESS_BIT) {
            Direction::Press
        } else {
            Direction::Release
        }
    }
}

/// Assembles a coordinate from its two bytes, high byte first.
pub fn coordinate(high: u8, low: u8) -> (value: u16)
    ensures
        value == big_endian(high, low),
        value == high * 256 + low,
{
    proof {
        lemma_big_endian(high, low);
    }
    ((high as u16) << 8) | (low as u16)
}

impl TouchEvent {
    /// Decodes one packet. The flags byte decides whether the five bytes are
    /// a packet at all; the coordinate bytes are taken as they come.
    pub fn from_frame(frame: &[u8; 5]) -> (event: Option<TouchEvent>)
        ensures
            event == if is_flags_byte(frame[0]) {
                Some(frame_event(frame@))
            } else {
                None
            },
    {
        if is_valid_flags(frame[0]) {
            Some(
                TouchEvent {
                    direction: Direction::from_flags(frame[0]),
                    x: coordinate(frame[1], frame[2]),
                    y: coordinate(frame[3], frame[4]),
                },
            )
        } else {
            None
        }
    }
}

} // verus!
